//! The routing engine: accepts published messages, resolves recipients
//! through the channel map, and appends each message to the outbound queue
//! of every subscriber other than the sender.
//!
//! Routing is a single sequential admission point: for a fixed channel,
//! messages reach every subscriber's queue in the order they were admitted
//! here. Loopback suppression is per (sender, message): the publishing
//! participant is never handed its own message, whichever of its
//! subscriptions match, and a subscriber matching several recipient channels
//! of one message is handed the message once.

use vstd::prelude::*;
use crate::channel_map::ChannelMap;
use crate::channel_map::remove_step;
use crate::channel_map::subscribe_step;
use crate::channel_map::unsubscribe_step;
use crate::channel_map::vec_contains_u64;
use crate::errors::RoutingError;
use crate::upstream::UpstreamLink;
use crate::upstream::covers_any;
use crate::upstream::interests_cover;

verus! {

/// A routed envelope: sender channel, recipient channels, message type, and
/// an opaque schema-encoded body.
#[derive(Debug, PartialEq, Eq)]
pub struct Message {
    pub sender: u64,
    pub recipients: Vec<u64>,
    pub message_type: u16,
    pub payload: Vec<u8>,
}

impl View for Message {
    type V = (u64, Seq<u64>, u16, Seq<u8>);

    open spec fn view(&self) -> Self::V {
        (self.sender, self.recipients@, self.message_type, self.payload@)
    }
}

/// Copy a vector of plain values.
pub fn copy_vec<T: Copy>(v: &Vec<T>) -> (r: Vec<T>)
    ensures
        r@ == v@,
{
    let mut r: Vec<T> = Vec::new();
    let mut i: usize = 0;
    #[verifier::loop_isolation(false)]
    while i < v.len()
        invariant
            i <= v@.len(),
            r@ == v@.subrange(0, i as int),
        decreases v@.len() - i,
    {
        r.push(v[i]);
        proof {
            assert(r@ =~= v@.subrange(0, i + 1));
        }
        i += 1;
    }
    proof {
        assert(r@ =~= v@);
    }
    r
}

/// An identical envelope: same sender, recipients, type and payload.
pub fn clone_message(m: &Message) -> (r: Message)
    ensures
        r@ == m@,
{
    Message {
        sender: m.sender,
        recipients: copy_vec(&m.recipients),
        message_type: m.message_type,
        payload: copy_vec(&m.payload),
    }
}

/// Replace the element of `v` at `i`.
pub(crate) fn vec_set<T>(v: &mut Vec<T>, i: usize, x: T)
    requires
        i < old(v)@.len(),
    ensures
        final(v)@ == old(v)@.update(i as int, x),
{
    let _ = v.remove(i);
    v.insert(i, x);
    proof {
        assert(v@ =~= old(v)@.update(i as int, x));
    }
}

/// Push `m` onto the queue stored at `v[i]`, leaving every other queue as
/// it was.
fn vec_elem_push(v: &mut Vec<Vec<Message>>, i: usize, m: Message)
    requires
        i < old(v)@.len(),
    ensures
        final(v)@.len() == old(v)@.len(),
        final(v)@[i as int]@ == old(v)@[i as int]@.push(m),
        forall|k: int| 0 <= k < old(v)@.len() && k != i ==> final(v)@[k] == old(v)@[k],
{
    let mut q = v.remove(i);
    q.push(m);
    let ghost qv = q@;
    v.insert(i, q);
    proof {
        assert(v@[i as int]@ == qv);
        assert forall|k: int| 0 <= k < old(v)@.len() && k != i implies v@[k] == old(v)@[k] by {
            if k < i {
                assert(v@[k] == old(v)@.remove(i as int)[k]);
            } else {
                assert(v@[k] == old(v)@.remove(i as int)[k - 1]);
            }
        }
    }
}

/// Whether the director, in state `pre`, hands a copy of message `m`
/// published by participant `from` to participant `p`: some recipient
/// channel of `m` routes to `p`, and `p` is not the sender.
pub open spec fn delivered_to(
    pre: Director,
    from: u64,
    m: (u64, Seq<u64>, u16, Seq<u8>),
    p: u64,
) -> bool {
    &&& p != from
    &&& exists|k: int| 0 <= k < m.1.len() && #[trigger] pre.map.covers(p, m.1[k])
}

/// The message director: the channel map it consults, one outbound queue
/// per participant handle, and which handles are still connected.
///
/// Participant handles are indices into `queues`, handed out by `connect`
/// and stable for the life of the director (arena style); a disconnected
/// handle keeps its slot but is never routed to again.
pub struct Director {
    pub map: ChannelMap,
    pub queues: Vec<Vec<Message>>,
    pub alive: Vec<bool>,
}

impl Director {
    /// Handle `p` names a connected participant.
    pub open spec fn is_live(self, p: u64) -> bool {
        (p as int) < self.queues@.len() && self.alive@[p as int]
    }

    /// The outbound queue of participant `p`, oldest message first.
    pub open spec fn queue_of(self, p: u64) -> Seq<(u64, Seq<u64>, u16, Seq<u8>)> {
        self.queues@[p as int]@.map_values(|m: Message| m@)
    }

    /// One queue per handle, a well-formed channel map, and no subscription
    /// held by a disconnected or unknown handle.
    pub open spec fn wf(self) -> bool {
        &&& self.map.wf()
        &&& self.queues@.len() == self.alive@.len()
        &&& forall|p: u64| self.map.mentions(p) ==> self.is_live(p)
    }

    /// A director with no participants and no subscriptions.
    pub fn new() -> (r: Director)
        ensures
            r.wf(),
            r.queues@.len() == 0,
            forall|p: u64, c: u64| !r.map.covers(p, c),
    {
        Director { map: ChannelMap::new(), queues: Vec::new(), alive: Vec::new() }
    }

    /// Attach a participant: hand out the next free handle with an empty
    /// outbound queue; every other participant is untouched.
    pub fn connect(&mut self) -> (p: u64)
        requires
            old(self).wf(),
            old(self).queues@.len() < u64::MAX,
        ensures
            final(self).wf(),
            p == old(self).queues@.len(),
            final(self).queues@.len() == old(self).queues@.len() + 1,
            final(self).is_live(p),
            final(self).queue_of(p) == Seq::<(u64, Seq<u64>, u16, Seq<u8>)>::empty(),
            final(self).map == old(self).map,
            forall|q: u64| q != p ==> final(self).is_live(q) == old(self).is_live(q),
            forall|q: u64|
                (q as int) < old(self).queues@.len() ==> final(self).queue_of(q) == old(
                    self,
                ).queue_of(q),
    {
        let p = self.queues.len() as u64;
        self.queues.push(Vec::new());
        self.alive.push(true);
        proof {
            assert(self.queue_of(p) =~= Seq::<(u64, Seq<u64>, u16, Seq<u8>)>::empty());
            assert forall|q: u64| self.map.mentions(q) implies self.is_live(q) by {
                assert(old(self).is_live(q));
            }
        }
        p
    }

    /// Detach a participant: atomically drop all its subscriptions, discard
    /// the messages still queued for it, and retire its handle. Afterwards
    /// no lookup in the channel map can reach it.
    pub fn disconnect(&mut self, p: u64)
        requires
            old(self).wf(),
            (p as int) < old(self).queues@.len(),
        ensures
            final(self).wf(),
            !final(self).is_live(p),
            !final(self).map.mentions(p),
            forall|c: u64| !final(self).map.covers(p, c),
            remove_step(old(self).map, final(self).map, p),
            final(self).queues@.len() == old(self).queues@.len(),
            forall|q: u64| q != p ==> final(self).is_live(q) == old(self).is_live(q),
            forall|q: u64|
                q != p && (q as int) < old(self).queues@.len() ==> final(self).queue_of(q)
                    == old(self).queue_of(q),
            final(self).queue_of(p) == Seq::<(u64, Seq<u64>, u16, Seq<u8>)>::empty(),
    {
        proof {
            assert(self.queues.len() == self.queues@.len());
        }
        self.map.remove_participant(p);
        vec_set(&mut self.alive, p as usize, false);
        vec_set(&mut self.queues, p as usize, Vec::new());
        proof {
            assert(self.queue_of(p) =~= Seq::<(u64, Seq<u64>, u16, Seq<u8>)>::empty());
            assert forall|q: u64| self.map.mentions(q) implies self.is_live(q) by {
                if exists|c: u64| self.map.has_single(q, c) {
                    let c = choose|c: u64| self.map.has_single(q, c);
                    assert(old(self).map.has_single(q, c) && q != p);
                    assert(old(self).map.mentions(q));
                } else {
                    let (lo, hi) = choose|lo: u64, hi: u64| self.map.has_range(q, lo, hi);
                    assert(old(self).map.has_range(q, lo, hi) && q != p);
                    assert(old(self).map.mentions(q));
                }
                assert(old(self).is_live(q));
            }
        }
    }

    /// Subscribe a connected participant to a single channel; idempotent.
    pub fn subscribe(&mut self, p: u64, c: u64)
        requires
            old(self).wf(),
            old(self).is_live(p),
        ensures
            final(self).wf(),
            subscribe_step(old(self).map, final(self).map, p, c),
            final(self).queues@ == old(self).queues@,
            final(self).alive@ == old(self).alive@,
    {
        self.map.subscribe(p, c);
        proof {
            assert forall|q: u64| self.map.mentions(q) implies self.is_live(q) by {
                if q != p {
                    if exists|c2: u64| self.map.has_single(q, c2) {
                        let c2 = choose|c2: u64| self.map.has_single(q, c2);
                        assert(old(self).map.has_single(q, c2));
                        assert(old(self).map.mentions(q));
                    } else {
                        let (lo, hi) = choose|lo: u64, hi: u64| self.map.has_range(q, lo, hi);
                        assert(old(self).map.has_range(q, lo, hi));
                        assert(old(self).map.mentions(q));
                    }
                    assert(old(self).is_live(q));
                }
            }
        }
    }

    /// Subscribe a connected participant to the channel range `[lo, hi]`.
    pub fn subscribe_range(&mut self, p: u64, lo: u64, hi: u64)
        requires
            old(self).wf(),
            old(self).is_live(p),
            lo <= hi,
        ensures
            final(self).wf(),
            forall|q: u64, l: u64, h: u64|
                final(self).map.has_range(q, l, h) <==> (old(self).map.has_range(q, l, h) || (
                q == p && l == lo && h == hi)),
            forall|q: u64, d: u64|
                final(self).map.has_single(q, d) <==> old(self).map.has_single(q, d),
            final(self).queues@ == old(self).queues@,
            final(self).alive@ == old(self).alive@,
    {
        self.map.subscribe_range(p, lo, hi);
        proof {
            assert forall|q: u64| self.map.mentions(q) implies self.is_live(q) by {
                if q != p {
                    if exists|c2: u64| self.map.has_single(q, c2) {
                        let c2 = choose|c2: u64| self.map.has_single(q, c2);
                        assert(old(self).map.has_single(q, c2));
                        assert(old(self).map.mentions(q));
                    } else {
                        let (lo, hi) = choose|lo: u64, hi: u64| self.map.has_range(q, lo, hi);
                        assert(old(self).map.has_range(q, lo, hi));
                        assert(old(self).map.mentions(q));
                    }
                    assert(old(self).is_live(q));
                }
            }
        }
    }

    /// Drop one single-channel subscription; a no-op when it was never held.
    pub fn unsubscribe(&mut self, p: u64, c: u64)
        requires
            old(self).wf(),
        ensures
            final(self).wf(),
            unsubscribe_step(old(self).map, final(self).map, p, c),
            final(self).queues@ == old(self).queues@,
            final(self).alive@ == old(self).alive@,
    {
        self.map.unsubscribe(p, c);
        proof {
            assert forall|q: u64| self.map.mentions(q) implies self.is_live(q) by {
                if exists|c2: u64| self.map.has_single(q, c2) {
                    let c2 = choose|c2: u64| self.map.has_single(q, c2);
                    assert(old(self).map.has_single(q, c2));
                    assert(old(self).map.mentions(q));
                } else {
                    let (lo, hi) = choose|lo: u64, hi: u64| self.map.has_range(q, lo, hi);
                    assert(old(self).map.has_range(q, lo, hi));
                    assert(old(self).map.mentions(q));
                }
                assert(old(self).is_live(q));
            }
        }
    }

    /// Drop one range subscription; a no-op when it was never held.
    pub fn unsubscribe_range(&mut self, p: u64, lo: u64, hi: u64)
        requires
            old(self).wf(),
        ensures
            final(self).wf(),
            forall|q: u64, l: u64, h: u64|
                final(self).map.has_range(q, l, h) <==> (old(self).map.has_range(q, l, h)
                    && !(q == p && l == lo && h == hi)),
            forall|q: u64, d: u64|
                final(self).map.has_single(q, d) <==> old(self).map.has_single(q, d),
            final(self).queues@ == old(self).queues@,
            final(self).alive@ == old(self).alive@,
    {
        self.map.unsubscribe_range(p, lo, hi);
        proof {
            assert forall|q: u64| self.map.mentions(q) implies self.is_live(q) by {
                if exists|c2: u64| self.map.has_single(q, c2) {
                    let c2 = choose|c2: u64| self.map.has_single(q, c2);
                    assert(old(self).map.has_single(q, c2));
                    assert(old(self).map.mentions(q));
                } else {
                    let (lo, hi) = choose|lo: u64, hi: u64| self.map.has_range(q, lo, hi);
                    assert(old(self).map.has_range(q, lo, hi));
                    assert(old(self).map.mentions(q));
                }
                assert(old(self).is_live(q));
            }
        }
    }

    /// Route one message published by participant `from`.
    ///
    /// An empty recipient set is rejected before dispatch and nothing
    /// changes. Otherwise the message is appended, verbatim and exactly
    /// once, to the queue of every participant that one of the recipient
    /// channels currently routes to — except `from` itself — and to no
    /// other queue; every queue keeps its earlier messages in place, which
    /// is what makes delivery order per subscriber the admission order.
    #[verifier::loop_isolation(false)]
    pub fn publish(&mut self, from: u64, msg: &Message) -> (r: Result<(), RoutingError>)
        requires
            old(self).wf(),
        ensures
            final(self).wf(),
            final(self).map == old(self).map,
            final(self).alive@ == old(self).alive@,
            final(self).queues@.len() == old(self).queues@.len(),
            msg.recipients@.len() == 0 ==> r == Err::<(), RoutingError>(
                RoutingError::EmptyRecipients,
            ) && *final(self) == *old(self),
            msg.recipients@.len() > 0 ==> r == Ok::<(), RoutingError>(()),
            forall|q: u64|
                (q as int) < old(self).queues@.len() ==> final(self).queue_of(q) == (
                if delivered_to(*old(self), from, msg@, q) {
                    old(self).queue_of(q).push(msg@)
                } else {
                    old(self).queue_of(q)
                }),
    {
        if msg.recipients.len() == 0 {
            return Err(RoutingError::EmptyRecipients);
        }
        let ghost pre = *self;
        let mut targets: Vec<u64> = Vec::new();
        let mut i: usize = 0;
        while i < msg.recipients.len()
            invariant
                *self == pre,
                i <= msg.recipients@.len(),
                forall|k: int, l: int|
                    0 <= k < l < targets@.len() ==> targets@[k] != targets@[l],
                forall|p: u64| targets@.contains(p) ==> delivered_to(pre, from, msg@, p),
                forall|p: u64, k: int|
                    0 <= k < i && p != from && #[trigger] pre.map.covers(
                        p,
                        msg.recipients@[k],
                    ) ==> targets@.contains(p),
            decreases msg.recipients@.len() - i,
        {
            let c = msg.recipients[i];
            let subs = self.map.lookup(c);
            let mut j: usize = 0;
            while j < subs.len()
                invariant
                    *self == pre,
                    j <= subs@.len(),
                    forall|p: u64| subs@.contains(p) <==> pre.map.covers(p, c),
                    forall|k: int, l: int|
                        0 <= k < l < targets@.len() ==> targets@[k] != targets@[l],
                    forall|p: u64| targets@.contains(p) ==> delivered_to(pre, from, msg@, p),
                    forall|p: u64, k: int|
                        0 <= k < i && p != from && #[trigger] pre.map.covers(
                            p,
                            msg.recipients@[k],
                        ) ==> targets@.contains(p),
                    forall|l: int|
                        0 <= l < j && subs@[l] != from ==> targets@.contains(subs@[l]),
                decreases subs@.len() - j,
            {
                let p = subs[j];
                if p != from && !vec_contains_u64(&targets, p) {
                    let ghost tpre = targets@;
                    targets.push(p);
                    proof {
                        crate::channel_map::lemma_push_contains(tpre, targets@, p);
                        assert(subs@[j as int] == p);
                        assert(subs@.contains(p));
                        assert(pre.map.covers(p, c));
                        assert(c == msg.recipients@[i as int]);
                        assert(pre.map.covers(p, msg@.1[i as int]));
                        assert(delivered_to(pre, from, msg@, p));
                    }
                }
                j += 1;
            }
            proof {
                assert forall|p: u64, k: int|
                    0 <= k < i + 1 && p != from && #[trigger] pre.map.covers(
                        p,
                        msg.recipients@[k],
                    ) implies targets@.contains(p) by {
                    if k == i {
                        assert(subs@.contains(p));
                        let l = choose|l: int| 0 <= l < subs@.len() && subs@[l] == p;
                        assert(targets@.contains(subs@[l]));
                    }
                }
            }
            i += 1;
        }
        let mut t: usize = 0;
        while t < targets.len()
            invariant
                t <= targets@.len(),
                self.map == pre.map,
                self.alive@ == pre.alive@,
                self.queues@.len() == pre.queues@.len(),
                forall|k: int, l: int|
                    0 <= k < l < targets@.len() ==> targets@[k] != targets@[l],
                forall|p: u64| targets@.contains(p) ==> delivered_to(pre, from, msg@, p),
                forall|p: u64, k: int|
                    0 <= k < msg.recipients@.len() && p != from && #[trigger] pre.map.covers(
                        p,
                        msg.recipients@[k],
                    ) ==> targets@.contains(p),
                forall|q: u64|
                    (q as int) < pre.queues@.len() ==> self.queue_of(q) == (
                    if targets@.subrange(0, t as int).contains(q) {
                        pre.queue_of(q).push(msg@)
                    } else {
                        pre.queue_of(q)
                    }),
            decreases targets@.len() - t,
        {
            let p = targets[t];
            proof {
                assert(targets@[t as int] == p);
                assert(targets@.contains(p));
                assert(delivered_to(pre, from, msg@, p));
                let k = choose|k: int|
                    0 <= k < msg@.1.len() && pre.map.covers(p, msg@.1[k]);
                lemma_covers_mentions(pre.map, p, msg@.1[k]);
                assert(pre.is_live(p));
                assert(!targets@.subrange(0, t as int).contains(p)) by {
                    if targets@.subrange(0, t as int).contains(p) {
                        let l = choose|l: int|
                            0 <= l < t && targets@.subrange(0, t as int)[l] == p;
                        assert(targets@[l] == targets@[t as int]);
                    }
                }
            }
            proof {
                assert(self.queues.len() == self.queues@.len());
                assert(self.queue_of(p) == pre.queue_of(p));
            }
            let ghost snap = *self;
            let idx = p as usize;
            let m2 = clone_message(msg);
            let ghost qpre = self.queues@;
            vec_elem_push(&mut self.queues, idx, m2);
            proof {
                assert(self.queues@[p as int]@ == qpre[p as int]@.push(m2));
                assert(self.queue_of(p) =~= pre.queue_of(p).push(msg@));
                assert forall|q: u64|
                    (q as int) < pre.queues@.len() implies self.queue_of(q) == (
                if targets@.subrange(0, t + 1).contains(q) {
                    pre.queue_of(q).push(msg@)
                } else {
                    pre.queue_of(q)
                }) by {
                    assert(targets@.subrange(0, t + 1) =~= targets@.subrange(
                        0,
                        t as int,
                    ).push(p));
                    crate::channel_map::lemma_push_contains(
                        targets@.subrange(0, t as int),
                        targets@.subrange(0, t + 1),
                        p,
                    );
                    if q != p {
                        assert(snap.queue_of(q) == (
                        if targets@.subrange(0, t as int).contains(q) {
                            pre.queue_of(q).push(msg@)
                        } else {
                            pre.queue_of(q)
                        }));
                        assert(self.queues@[q as int] == qpre[q as int]);
                        assert(self.queue_of(q) == snap.queue_of(q));
                    }
                }
            }
            t += 1;
        }
        proof {
            assert forall|q: u64|
                (q as int) < pre.queues@.len() implies self.queue_of(q) == (
            if delivered_to(pre, from, msg@, q) {
                pre.queue_of(q).push(msg@)
            } else {
                pre.queue_of(q)
            }) by {
                assert(targets@.subrange(0, targets@.len() as int) =~= targets@);
                if delivered_to(pre, from, msg@, q) {
                    let k = choose|k: int|
                        0 <= k < msg@.1.len() && pre.map.covers(q, msg@.1[k]);
                    assert(targets@.contains(q));
                }
            }
        }
        proof {
            assert forall|q: u64| self.map.mentions(q) implies self.is_live(q) by {
                assert(old(self).is_live(q));
            }
        }
        Ok(())
    }

    /// Route one message through the whole cluster step: deliver locally
    /// exactly as `publish` does, and decide the upstream forward.
    ///
    /// The message goes to the peer at most once, however many recipient
    /// channels match: only over a live link, only when some recipient
    /// channel falls in the interest set the peer announced (the peer
    /// re-expands it to its own subscribers), and never back toward the
    /// link the message arrived from — the loop-prevention rule of the
    /// cluster topology.
    #[verifier::loop_isolation(false)]
    pub fn route(
        &mut self,
        from: u64,
        msg: &Message,
        link: &UpstreamLink,
        arrived_from_peer: bool,
    ) -> (r: Result<bool, RoutingError>)
        requires
            old(self).wf(),
        ensures
            final(self).wf(),
            final(self).map == old(self).map,
            final(self).alive@ == old(self).alive@,
            final(self).queues@.len() == old(self).queues@.len(),
            msg.recipients@.len() == 0 ==> r == Err::<bool, RoutingError>(
                RoutingError::EmptyRecipients,
            ) && *final(self) == *old(self),
            msg.recipients@.len() > 0 ==> (r matches Ok(fwd) && (fwd <==> (link.connected
                && !arrived_from_peer && exists|k: int|
                0 <= k < msg.recipients@.len() && #[trigger] interests_cover(
                    link.peer_interests@,
                    msg.recipients@[k],
                )))),
            forall|q: u64|
                (q as int) < old(self).queues@.len() ==> final(self).queue_of(q) == (
                if delivered_to(*old(self), from, msg@, q) {
                    old(self).queue_of(q).push(msg@)
                } else {
                    old(self).queue_of(q)
                }),
    {
        match self.publish(from, msg) {
            Err(e) => Err(e),
            Ok(()) => {
                if !link.forward_to_peer(arrived_from_peer) {
                    return Ok(false);
                }
                let mut i: usize = 0;
                while i < msg.recipients.len()
                    invariant
                        i <= msg.recipients@.len(),
                        forall|k: int|
                            0 <= k < i ==> !(#[trigger] interests_cover(
                                link.peer_interests@,
                                msg.recipients@[k],
                            )),
                    decreases msg.recipients@.len() - i,
                {
                    if covers_any(&link.peer_interests, msg.recipients[i]) {
                        proof {
                            assert(interests_cover(
                                link.peer_interests@,
                                msg.recipients@[i as int],
                            ));
                        }
                        return Ok(true);
                    }
                    i += 1;
                }
                Ok(false)
            },
        }
    }

    /// Write-side backpressure: a participant whose outbound queue has
    /// grown past the configured bound is torn down — the connection is
    /// closed (with its subscriptions dropped and its queue discarded)
    /// rather than the queue growing without bound. Under the bound,
    /// nothing changes.
    pub fn enforce_backpressure(&mut self, p: u64, bound: usize) -> (r: bool)
        requires
            old(self).wf(),
            (p as int) < old(self).queues@.len(),
        ensures
            final(self).wf(),
            r == (old(self).queue_of(p).len() > bound),
            !r ==> *final(self) == *old(self),
            r ==> {
                &&& !final(self).is_live(p)
                &&& !final(self).map.mentions(p)
                &&& final(self).queue_of(p) == Seq::<(u64, Seq<u64>, u16, Seq<u8>)>::empty()
                &&& final(self).queues@.len() == old(self).queues@.len()
                &&& forall|q: u64| q != p ==> final(self).is_live(q) == old(self).is_live(q)
                &&& forall|q: u64|
                    q != p && (q as int) < old(self).queues@.len() ==> final(self).queue_of(q)
                        == old(self).queue_of(q)
            },
    {
        if self.queue_len(p) > bound {
            self.disconnect(p);
            true
        } else {
            false
        }
    }

    /// How many participant handles have been issued.
    pub fn participant_count(&self) -> (n: usize)
        ensures
            n == self.queues@.len(),
    {
        self.queues.len()
    }

    /// Whether handle `p` names a connected participant.
    pub fn live(&self, p: u64) -> (r: bool)
        requires
            self.wf(),
        ensures
            r == self.is_live(p),
    {
        proof {
            assert(self.queues.len() == self.queues@.len());
        }
        if (p as u128) >= (self.queues.len() as u128) {
            return false;
        }
        self.alive[p as usize]
    }

    /// How many messages are queued for participant `p`.
    pub fn queue_len(&self, p: u64) -> (n: usize)
        requires
            (p as int) < self.queues@.len(),
        ensures
            n == self.queue_of(p).len(),
    {
        proof {
            assert(self.queues.len() == self.queues@.len());
        }
        self.queues[p as usize].len()
    }

    /// Hand the oldest queued message to participant `p`, or nothing when
    /// its queue is empty.
    pub fn next_outbound(&mut self, p: u64) -> (r: Option<Message>)
        requires
            old(self).wf(),
            (p as int) < old(self).queues@.len(),
        ensures
            final(self).wf(),
            final(self).map == old(self).map,
            final(self).alive@ == old(self).alive@,
            final(self).queues@.len() == old(self).queues@.len(),
            forall|q: u64|
                q != p && (q as int) < old(self).queues@.len() ==> final(self).queue_of(q)
                    == old(self).queue_of(q),
            old(self).queue_of(p).len() == 0 ==> r is None && *final(self) == *old(self),
            old(self).queue_of(p).len() > 0 ==> r is Some && r->0@ == old(self).queue_of(p)[0]
                && final(self).queue_of(p) == old(self).queue_of(p).subrange(
                1,
                old(self).queue_of(p).len() as int,
            ),
    {
        proof {
            assert(self.queues.len() == self.queues@.len());
        }
        let idx = p as usize;
        if self.queues[idx].len() == 0 {
            return None;
        }
        let mut q = self.queues.remove(idx);
        let m = q.remove(0);
        self.queues.insert(idx, q);
        proof {
            assert(self.queue_of(p) =~= old(self).queue_of(p).subrange(
                1,
                old(self).queue_of(p).len() as int,
            ));
            assert forall|q2: u64| self.map.mentions(q2) implies self.is_live(q2) by {
                assert(old(self).is_live(q2));
            }
            assert forall|r: u64|
                r != p && (r as int) < old(self).queues@.len() implies self.queue_of(r) == old(
                self,
            ).queue_of(r) by {
                if (r as int) < idx {
                    assert(self.queues@[r as int] == old(self).queues@.remove(
                        idx as int,
                    )[r as int]);
                } else {
                    assert(self.queues@[r as int] == old(self).queues@.remove(idx as int)[(
                    r as int) - 1]);
                }
            }
        }
        Some(m)
    }
}

/// A participant that some channel routes to is referenced by the index.
proof fn lemma_covers_mentions(m: ChannelMap, p: u64, c: u64)
    requires
        m.covers(p, c),
    ensures
        m.mentions(p),
{
    if !m.has_single(p, c) {
        let (lo, hi) = choose|lo: u64, hi: u64| m.has_range(p, lo, hi) && lo <= c <= hi;
        assert(m.has_range(p, lo, hi));
    }
}


} // verus!
