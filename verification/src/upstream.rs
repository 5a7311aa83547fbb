//! The upstream link that clusters directors into one channel space.
//!
//! To its peer a director looks like a single participant subscribed to
//! everything the local side needs: local subscriptions are aggregated
//! into an interest set announced over a control stream, so subscription
//! changes propagate without per-message round trips. Losing the link
//! degrades to local-only routing; reconnection resynchronizes the full
//! interest set rather than a diff. A message is never re-forwarded back
//! toward the link it arrived from.

use vstd::prelude::*;
use crate::channel_map::ChannelMap;

verus! {

/// Channel `c` falls in one of the announced intervals.
pub open spec fn interests_cover(entries: Seq<(u64, u64)>, c: u64) -> bool {
    exists|k: int| 0 <= k < entries.len() && (#[trigger] entries[k]).0 <= c <= entries[k].1
}

/// Some local participant currently listens on channel `c`.
pub open spec fn locally_needed(map: ChannelMap, c: u64) -> bool {
    exists|p: u64| map.covers(p, c)
}

/// Aggregate the local subscription state into the interest set announced
/// to the peer: every single subscription as a one-channel interval, every
/// range subscription as itself — the intervals cover exactly the
/// channels some local participant listens on.
#[verifier::loop_isolation(false)]
pub fn aggregate_interests(map: &ChannelMap) -> (r: Vec<(u64, u64)>)
    ensures
        forall|c: u64| interests_cover(r@, c) <==> locally_needed(*map, c),
{
    let mut r: Vec<(u64, u64)> = Vec::new();
    let mut i: usize = 0;
    while i < map.singles.len()
        invariant
            i <= map.singles@.len(),
            forall|c: u64| interests_cover(r@, c) ==> locally_needed(*map, c),
            forall|k: int|
                0 <= k < i ==> interests_cover(r@, #[trigger] map.singles@[k].1),
        decreases map.singles@.len() - i,
    {
        let e = map.singles[i];
        let ghost pre = r@;
        r.push((e.1, e.1));
        proof {
            assert(r@[r@.len() - 1] == (e.1, e.1));
            assert(map.singles@[i as int] == e);
            assert(map.singles@.contains(e));
            assert(map.covers(e.0, e.1));
            assert forall|c: u64| interests_cover(r@, c) implies locally_needed(
                *map,
                c,
            ) by {
                let k = choose|k: int| 0 <= k < r@.len() && (#[trigger] r@[k]).0 <= c <= r@[k].1;
                if k < pre.len() {
                    assert(interests_cover(pre, c));
                }
            }
            assert forall|k: int|
                0 <= k < i + 1 implies interests_cover(
                r@,
                #[trigger] map.singles@[k].1,
            ) by {
                if k < i {
                    let l = choose|l: int|
                        0 <= l < pre.len() && (#[trigger] pre[l]).0 <= map.singles@[k].1
                            <= pre[l].1;
                    assert(r@[l] == pre[l]);
                }
            }
        }
        i += 1;
    }
    let mut j: usize = 0;
    while j < map.ranges.len()
        invariant
            j <= map.ranges@.len(),
            forall|c: u64| interests_cover(r@, c) ==> locally_needed(*map, c),
            forall|k: int|
                0 <= k < map.singles@.len() ==> interests_cover(
                    r@,
                    #[trigger] map.singles@[k].1,
                ),
            forall|k: int, c: u64|
                0 <= k < j && (#[trigger] map.ranges@[k]).1 <= c <= map.ranges@[k].2
                    ==> #[trigger] interests_cover(r@, c),
        decreases map.ranges@.len() - j,
    {
        let e = map.ranges[j];
        let ghost pre = r@;
        r.push((e.1, e.2));
        proof {
            assert(r@[r@.len() - 1] == (e.1, e.2));
            assert(map.ranges@[j as int] == e);
            assert(map.ranges@.contains(e));
            assert(map.has_range(e.0, e.1, e.2));
            assert forall|c: u64| interests_cover(r@, c) implies locally_needed(
                *map,
                c,
            ) by {
                let k = choose|k: int| 0 <= k < r@.len() && (#[trigger] r@[k]).0 <= c <= r@[k].1;
                if k < pre.len() {
                    assert(interests_cover(pre, c));
                } else {
                    assert(map.covers(e.0, c));
                }
            }
            assert forall|k: int|
                0 <= k < map.singles@.len() implies interests_cover(
                r@,
                #[trigger] map.singles@[k].1,
            ) by {
                let l = choose|l: int|
                    0 <= l < pre.len() && (#[trigger] pre[l]).0 <= map.singles@[k].1
                        <= pre[l].1;
                assert(r@[l] == pre[l]);
            }
            assert forall|k: int, c: u64|
                0 <= k < j + 1 && (#[trigger] map.ranges@[k]).1 <= c <= map.ranges@[k].2
                    implies #[trigger] interests_cover(r@, c) by {
                if k < j {
                    assert(interests_cover(pre, c));
                    let l = choose|l: int| 0 <= l < pre.len() && (#[trigger] pre[l]).0 <= c <= pre[l].1;
                    assert(r@[l] == pre[l]);
                } else {
                    assert(r@[r@.len() - 1].0 <= c <= r@[r@.len() - 1].1);
                }
            }
        }
        j += 1;
    }
    proof {
        assert forall|c: u64| locally_needed(*map, c) implies interests_cover(r@, c) by {
            let p = choose|p: u64| map.covers(p, c);
            if map.has_single(p, c) {
                let k = choose|k: int|
                    0 <= k < map.singles@.len() && map.singles@[k] == (p, c);
                assert(map.singles@[k].1 == c);
            } else {
                let (lo, hi) = choose|lo: u64, hi: u64|
                    map.has_range(p, lo, hi) && lo <= c <= hi;
                let k = choose|k: int|
                    0 <= k < map.ranges@.len() && map.ranges@[k] == (p, lo, hi);
                assert(map.ranges@[k].1 <= c <= map.ranges@[k].2);
            }
        }
    }
    r
}

/// Whether any interval of the set covers channel `c`.
#[verifier::loop_isolation(false)]
pub fn covers_any(entries: &Vec<(u64, u64)>, c: u64) -> (r: bool)
    ensures
        r == interests_cover(entries@, c),
{
    let mut i: usize = 0;
    while i < entries.len()
        invariant
            i <= entries@.len(),
            forall|k: int| 0 <= k < i ==> !((#[trigger] entries@[k]).0 <= c <= entries@[k].1),
        decreases entries@.len() - i,
    {
        let e = entries[i];
        if e.0 <= c && c <= e.1 {
            proof {
                assert(entries@[i as int].0 <= c <= entries@[i as int].1);
            }
            return true;
        }
        i += 1;
    }
    false
}

/// The cluster link to one peer director: whether the peer is reachable,
/// which interest set this side last announced to it, and which interest
/// set the peer announced over its own control stream.
pub struct UpstreamLink {
    pub connected: bool,
    pub announced: Vec<(u64, u64)>,
    pub peer_interests: Vec<(u64, u64)>,
}

impl UpstreamLink {
    /// A link that has not connected yet: nothing announced either way.
    pub fn new() -> (r: UpstreamLink)
        ensures
            !r.connected,
            r.announced@.len() == 0,
            r.peer_interests@.len() == 0,
    {
        UpstreamLink { connected: false, announced: Vec::new(), peer_interests: Vec::new() }
    }

    /// The peer's control stream announced its interest set: remember it
    /// whole, replacing whatever it said before.
    pub fn update_peer_interests(&mut self, interests: Vec<(u64, u64)>)
        ensures
            final(self).peer_interests@ == interests@,
            final(self).connected == old(self).connected,
            final(self).announced@ == old(self).announced@,
    {
        self.peer_interests = interests;
    }

    /// The connection came up (or back): announce the full current
    /// interest set, not a diff — correctness over efficiency.
    pub fn resync(&mut self, map: &ChannelMap)
        ensures
            final(self).connected,
            forall|c: u64|
                interests_cover(final(self).announced@, c) <==> locally_needed(*map, c),
            final(self).peer_interests@ == old(self).peer_interests@,
    {
        self.announced = aggregate_interests(map);
        self.connected = true;
    }

    /// The connection dropped: routing degrades to local-only until a
    /// reconnect resynchronizes; nothing stays announced.
    pub fn connection_lost(&mut self)
        ensures
            !final(self).connected,
            final(self).announced@.len() == 0,
            final(self).peer_interests@.len() == 0,
    {
        self.connected = false;
        self.announced = Vec::new();
        self.peer_interests = Vec::new();
    }

    /// Whether a message must be forwarded to the peer: only over a live
    /// link, and never back toward the link it arrived from — the loop
    /// prevention rule of the cluster topology.
    pub fn forward_to_peer(&self, arrived_from_peer: bool) -> (r: bool)
        ensures
            r == (self.connected && !arrived_from_peer),
    {
        self.connected && !arrived_from_peer
    }
}

} // verus!
