//! The subscription index: which participants currently listen on which
//! channels or channel ranges.
//!
//! Single-channel subscriptions and range subscriptions are kept apart, as an
//! exact-match index and an interval index; a lookup on a channel queries both
//! and unions the results. Subscribing twice to the same channel is
//! idempotent; unsubscribing a channel a participant never held is a no-op.

use vstd::prelude::*;

verus! {

/// The subscription index queried by the router.
///
/// `singles` holds `(participant, channel)` entries, `ranges` holds
/// `(participant, low, high)` entries with `low <= high`; under `wf()`
/// neither list holds an entry twice.
pub struct ChannelMap {
    pub singles: Vec<(u64, u64)>,
    pub ranges: Vec<(u64, u64, u64)>,
}

/// How `subscribe(p, c)` changes the index: exactly the single-channel
/// entry `(p, c)` is added, every other entry is kept.
pub open spec fn subscribe_step(pre: ChannelMap, post: ChannelMap, p: u64, c: u64) -> bool {
    &&& forall|q: u64, d: u64|
        post.has_single(q, d) <==> (pre.has_single(q, d) || (q == p && d == c))
    &&& forall|q: u64, lo: u64, hi: u64| post.has_range(q, lo, hi) <==> pre.has_range(q, lo, hi)
}

/// How `unsubscribe(p, c)` changes the index: exactly the single-channel
/// entry `(p, c)` is gone, every other entry is kept.
pub open spec fn unsubscribe_step(pre: ChannelMap, post: ChannelMap, p: u64, c: u64) -> bool {
    &&& forall|q: u64, d: u64|
        post.has_single(q, d) <==> (pre.has_single(q, d) && !(q == p && d == c))
    &&& forall|q: u64, lo: u64, hi: u64| post.has_range(q, lo, hi) <==> pre.has_range(q, lo, hi)
}

/// How `remove_participant(p)` changes the index: exactly the entries of
/// other participants survive.
pub open spec fn remove_step(pre: ChannelMap, post: ChannelMap, p: u64) -> bool {
    &&& forall|q: u64, d: u64| post.has_single(q, d) <==> (pre.has_single(q, d) && q != p)
    &&& forall|q: u64, lo: u64, hi: u64|
        post.has_range(q, lo, hi) <==> (pre.has_range(q, lo, hi) && q != p)
}

impl ChannelMap {
    /// Participant `p` holds a single-channel subscription to `c`.
    pub open spec fn has_single(self, p: u64, c: u64) -> bool {
        self.singles@.contains((p, c))
    }

    /// Participant `p` holds the range subscription `[lo, hi]`.
    pub open spec fn has_range(self, p: u64, lo: u64, hi: u64) -> bool {
        self.ranges@.contains((p, lo, hi))
    }

    /// A message on channel `c` currently routes to participant `p`.
    pub open spec fn covers(self, p: u64, c: u64) -> bool {
        self.has_single(p, c) || exists|lo: u64, hi: u64|
            self.has_range(p, lo, hi) && lo <= c <= hi
    }

    /// Some entry of the index references participant `p`.
    pub open spec fn mentions(self, p: u64) -> bool {
        (exists|c: u64| self.has_single(p, c)) || (exists|lo: u64, hi: u64|
            self.has_range(p, lo, hi))
    }

    /// No entry occurs twice, and every range runs upward.
    pub open spec fn wf(self) -> bool {
        &&& forall|i: int, j: int|
            0 <= i < j < self.singles@.len() ==> self.singles@[i] != self.singles@[j]
        &&& forall|i: int, j: int|
            0 <= i < j < self.ranges@.len() ==> self.ranges@[i] != self.ranges@[j]
        &&& forall|i: int| 0 <= i < self.ranges@.len() ==> self.ranges@[i].1 <= self.ranges@[i].2
    }

    /// An index with no subscriptions at all.
    pub fn new() -> (r: ChannelMap)
        ensures
            r.wf(),
            forall|p: u64, c: u64| !r.has_single(p, c),
            forall|p: u64, lo: u64, hi: u64| !r.has_range(p, lo, hi),
            forall|p: u64| !r.mentions(p),
    {
        ChannelMap { singles: Vec::new(), ranges: Vec::new() }
    }

    /// Add the single-channel subscription `(p, c)`; idempotent.
    #[verifier::loop_isolation(false)]
    pub fn subscribe(&mut self, p: u64, c: u64)
        requires
            old(self).wf(),
        ensures
            final(self).wf(),
            subscribe_step(*old(self), *final(self), p, c),
            old(self).has_single(p, c) ==> *final(self) == *old(self),
    {
        let n = self.singles.len();
        let mut i: usize = 0;
        while i < n
            invariant
                n == self.singles@.len(),
                forall|k: int| 0 <= k < i ==> self.singles@[k] != (p, c),
            decreases n - i,
        {
            let e = self.singles[i];
            if e.0 == p && e.1 == c {
                proof {
                    assert(self.singles@[i as int] == (p, c));
                    assert(self.has_single(p, c));
                }
                return;
            }
            i += 1;
        }
        proof {
            assert(forall|k: int| 0 <= k < self.singles@.len() ==> self.singles@[k] != (p, c));
        }
        let ghost pre = *self;
        self.singles.push((p, c));
        proof {
            lemma_push_contains(pre.singles@, self.singles@, (p, c));
        }
    }

    /// Drop the single-channel subscription `(p, c)`; a no-op when it was
    /// never held (no error, no side effect).
    #[verifier::loop_isolation(false)]
    pub fn unsubscribe(&mut self, p: u64, c: u64)
        requires
            old(self).wf(),
        ensures
            final(self).wf(),
            unsubscribe_step(*old(self), *final(self), p, c),
            !old(self).has_single(p, c) ==> *final(self) == *old(self),
    {
        let n = self.singles.len();
        let mut i: usize = 0;
        while i < n
            invariant
                *self == *old(self),
                n == self.singles@.len(),
                forall|k: int| 0 <= k < i ==> self.singles@[k] != (p, c),
            decreases n - i,
        {
            let e = self.singles[i];
            if e.0 == p && e.1 == c {
                let ghost pre = *self;
                self.singles.remove(i);
                proof {
                    lemma_remove_unique(pre.singles@, self.singles@, i as int, (p, c));
                }
                return;
            }
            i += 1;
        }
        proof {
            assert(!self.has_single(p, c));
        }
    }

    /// Add the range subscription `(p, [lo, hi])`; idempotent.
    #[verifier::loop_isolation(false)]
    pub fn subscribe_range(&mut self, p: u64, lo: u64, hi: u64)
        requires
            old(self).wf(),
            lo <= hi,
        ensures
            final(self).wf(),
            forall|q: u64, l: u64, h: u64|
                final(self).has_range(q, l, h) <==> (old(self).has_range(q, l, h) || (q == p
                    && l == lo && h == hi)),
            forall|q: u64, d: u64| final(self).has_single(q, d) <==> old(self).has_single(q, d),
            old(self).has_range(p, lo, hi) ==> *final(self) == *old(self),
    {
        let n = self.ranges.len();
        let mut i: usize = 0;
        while i < n
            invariant
                n == self.ranges@.len(),
                forall|k: int| 0 <= k < i ==> self.ranges@[k] != (p, lo, hi),
            decreases n - i,
        {
            let e = self.ranges[i];
            if e.0 == p && e.1 == lo && e.2 == hi {
                proof {
                    assert(self.ranges@[i as int] == (p, lo, hi));
                    assert(self.has_range(p, lo, hi));
                }
                return;
            }
            i += 1;
        }
        let ghost pre = *self;
        self.ranges.push((p, lo, hi));
        proof {
            lemma_push_contains(pre.ranges@, self.ranges@, (p, lo, hi));
        }
    }

    /// Drop the range subscription `(p, [lo, hi])`; a no-op when it was
    /// never held.
    #[verifier::loop_isolation(false)]
    pub fn unsubscribe_range(&mut self, p: u64, lo: u64, hi: u64)
        requires
            old(self).wf(),
        ensures
            final(self).wf(),
            forall|q: u64, l: u64, h: u64|
                final(self).has_range(q, l, h) <==> (old(self).has_range(q, l, h) && !(q == p
                    && l == lo && h == hi)),
            forall|q: u64, d: u64| final(self).has_single(q, d) <==> old(self).has_single(q, d),
            !old(self).has_range(p, lo, hi) ==> *final(self) == *old(self),
    {
        let n = self.ranges.len();
        let mut i: usize = 0;
        while i < n
            invariant
                *self == *old(self),
                n == self.ranges@.len(),
                forall|k: int| 0 <= k < i ==> self.ranges@[k] != (p, lo, hi),
            decreases n - i,
        {
            let e = self.ranges[i];
            if e.0 == p && e.1 == lo && e.2 == hi {
                let ghost pre = *self;
                self.ranges.remove(i);
                proof {
                    lemma_remove_unique(pre.ranges@, self.ranges@, i as int, (p, lo, hi));
                    assert forall|k: int|
                        0 <= k < self.ranges@.len() implies self.ranges@[k].1
                        <= self.ranges@[k].2 by {
                        let x = self.ranges@[k];
                        assert(self.ranges@.contains(x));
                        assert(pre.ranges@.contains(x));
                        let m = choose|m: int|
                            0 <= m < pre.ranges@.len() && pre.ranges@[m] == x;
                        assert(pre.ranges@[m].1 <= pre.ranges@[m].2);
                    }
                }
                return;
            }
            i += 1;
        }
        proof {
            assert(!self.has_range(p, lo, hi));
        }
    }

    /// Remove every entry referencing participant `p`, as on a disconnect:
    /// afterwards no lookup can reach `p` (no dangling references).
    #[verifier::loop_isolation(false)]
    pub fn remove_participant(&mut self, p: u64)
        requires
            old(self).wf(),
        ensures
            final(self).wf(),
            remove_step(*old(self), *final(self), p),
            !final(self).mentions(p),
            forall|c: u64| !final(self).covers(p, c),
    {
        let ghost pre = *self;
        let mut i: usize = 0;
        while i < self.singles.len()
            invariant
                pre.wf(),
                self.ranges@ == pre.ranges@,
                i <= self.singles@.len(),
                forall|k: int, l: int|
                    0 <= k < l < self.singles@.len() ==> self.singles@[k] != self.singles@[l],
                forall|k: int| 0 <= k < i ==> self.singles@[k].0 != p,
                forall|q: u64, d: u64| self.has_single(q, d) ==> pre.has_single(q, d),
                forall|q: u64, d: u64|
                    pre.has_single(q, d) && q != p ==> self.has_single(q, d),
            decreases self.singles@.len() - i,
        {
            if self.singles[i].0 == p {
                let ghost cur = self.singles@;
                self.singles.swap_remove(i);
                proof {
                    lemma_swap_remove_unique(cur, self.singles@, i as int);
                    assert forall|q: u64, d: u64| self.has_single(q, d) implies pre.has_single(
                        q,
                        d,
                    ) by {
                        assert(cur.contains((q, d)));
                    }
                    assert forall|q: u64, d: u64|
                        pre.has_single(q, d) && q != p implies self.has_single(q, d) by {
                        assert(cur.contains((q, d)));
                        assert((q, d) != cur[i as int]);
                    }
                }
            } else {
                i += 1;
            }
        }
        proof {
            assert forall|q: u64, d: u64|
                self.has_single(q, d) implies (pre.has_single(q, d) && q != p) by {
                let k = choose|k: int|
                    0 <= k < self.singles@.len() && self.singles@[k] == (q, d);
                assert(self.singles@[k].0 != p);
            }
        }
        let mut j: usize = 0;
        while j < self.ranges.len()
            invariant
                pre.wf(),
                forall|k: int| 0 <= k < self.singles@.len() ==> self.singles@[k].0 != p,
                forall|q: u64, d: u64| self.has_single(q, d) ==> pre.has_single(q, d),
                forall|q: u64, d: u64|
                    pre.has_single(q, d) && q != p ==> self.has_single(q, d),
                forall|k: int, l: int|
                    0 <= k < l < self.singles@.len() ==> self.singles@[k] != self.singles@[l],
                j <= self.ranges@.len(),
                forall|k: int, l: int|
                    0 <= k < l < self.ranges@.len() ==> self.ranges@[k] != self.ranges@[l],
                forall|k: int| 0 <= k < self.ranges@.len() ==> self.ranges@[k].1
                    <= self.ranges@[k].2,
                forall|k: int| 0 <= k < j ==> self.ranges@[k].0 != p,
                forall|q: u64, lo: u64, hi: u64|
                    self.has_range(q, lo, hi) ==> pre.has_range(q, lo, hi),
                forall|q: u64, lo: u64, hi: u64|
                    pre.has_range(q, lo, hi) && q != p ==> self.has_range(q, lo, hi),
            decreases self.ranges@.len() - j,
        {
            if self.ranges[j].0 == p {
                let ghost cur = self.ranges@;
                self.ranges.swap_remove(j);
                proof {
                    lemma_swap_remove_unique(cur, self.ranges@, j as int);
                    assert forall|q: u64, lo: u64, hi: u64|
                        self.has_range(q, lo, hi) implies pre.has_range(q, lo, hi) by {
                        assert(cur.contains((q, lo, hi)));
                    }
                    assert forall|q: u64, lo: u64, hi: u64|
                        pre.has_range(q, lo, hi) && q != p implies self.has_range(
                        q,
                        lo,
                        hi,
                    ) by {
                        assert(cur.contains((q, lo, hi)));
                        assert((q, lo, hi) != cur[j as int]);
                    }
                    assert forall|k: int|
                        0 <= k < self.ranges@.len() implies self.ranges@[k].1
                        <= self.ranges@[k].2 by {
                        let x = self.ranges@[k];
                        assert(self.ranges@.contains(x));
                        assert(cur.contains(x));
                        let m = choose|m: int| 0 <= m < cur.len() && cur[m] == x;
                        assert(cur[m].1 <= cur[m].2);
                    }
                }
            } else {
                j += 1;
            }
        }
        proof {
            assert forall|q: u64, lo: u64, hi: u64|
                self.has_range(q, lo, hi) implies (pre.has_range(q, lo, hi) && q != p) by {
                let k = choose|k: int|
                    0 <= k < self.ranges@.len() && self.ranges@[k] == (q, lo, hi);
                assert(self.ranges@[k].0 != p);
            }
            assert forall|c: u64| !self.covers(p, c) by {
                if self.covers(p, c) {
                    if !self.has_single(p, c) {
                        let (lo, hi) = choose|lo: u64, hi: u64|
                            self.has_range(p, lo, hi) && lo <= c <= hi;
                        assert(p != p);
                    }
                }
            }
            assert(!self.mentions(p)) by {
                if self.mentions(p) {
                    if exists|c: u64| self.has_single(p, c) {
                        let c = choose|c: u64| self.has_single(p, c);
                        assert(p != p);
                    } else {
                        let (lo, hi) = choose|lo: u64, hi: u64| self.has_range(p, lo, hi);
                        assert(p != p);
                    }
                }
            }
        }
    }

    /// All participants a message on channel `c` currently routes to, each
    /// listed once: the union of the exact-match and the interval index.
    #[verifier::loop_isolation(false)]
    pub fn lookup(&self, c: u64) -> (r: Vec<u64>)
        requires
            self.wf(),
        ensures
            forall|p: u64| r@.contains(p) <==> self.covers(p, c),
            forall|i: int, j: int| 0 <= i < j < r@.len() ==> r@[i] != r@[j],
    {
        let mut r: Vec<u64> = Vec::new();
        let mut i: usize = 0;
        while i < self.singles.len()
            invariant
                self.wf(),
                i <= self.singles@.len(),
                forall|k: int, l: int| 0 <= k < l < r@.len() ==> r@[k] != r@[l],
                forall|p: u64| r@.contains(p) ==> self.covers(p, c),
                forall|k: int|
                    0 <= k < i && self.singles@[k].1 == c ==> r@.contains(self.singles@[k].0),
            decreases self.singles@.len() - i,
        {
            let e = self.singles[i];
            if e.1 == c && !vec_contains_u64(&r, e.0) {
                let ghost pre_r = r@;
                r.push(e.0);
                proof {
                    lemma_push_contains(pre_r, r@, e.0);
                    assert(self.singles@[i as int] == (e.0, c));
                    assert(self.singles@.contains((e.0, c)));
                }
            }
            i += 1;
        }
        let mut j: usize = 0;
        while j < self.ranges.len()
            invariant
                self.wf(),
                j <= self.ranges@.len(),
                forall|k: int, l: int| 0 <= k < l < r@.len() ==> r@[k] != r@[l],
                forall|p: u64| r@.contains(p) ==> self.covers(p, c),
                forall|k: int|
                    0 <= k < self.singles@.len() && self.singles@[k].1 == c ==> r@.contains(
                        self.singles@[k].0),
                forall|k: int|
                    0 <= k < j && self.ranges@[k].1 <= c <= self.ranges@[k].2 ==> r@.contains(
                        self.ranges@[k].0),
            decreases self.ranges@.len() - j,
        {
            let e = self.ranges[j];
            if e.1 <= c && c <= e.2 && !vec_contains_u64(&r, e.0) {
                let ghost pre_r = r@;
                r.push(e.0);
                proof {
                    lemma_push_contains(pre_r, r@, e.0);
                    assert(self.ranges@[j as int] == (e.0, e.1, e.2));
                    assert(self.ranges@.contains((e.0, e.1, e.2)));
                    assert(self.has_range(e.0, e.1, e.2));
                    assert(self.covers(e.0, c));
                }
            }
            j += 1;
        }
        proof {
            assert forall|p: u64| r@.contains(p) <==> self.covers(p, c) by {
                if self.covers(p, c) {
                    if self.has_single(p, c) {
                        let k = choose|k: int|
                            0 <= k < self.singles@.len() && self.singles@[k] == (p, c);
                        assert(self.singles@[k].1 == c);
                    } else {
                        let (lo, hi) = choose|lo: u64, hi: u64|
                            self.has_range(p, lo, hi) && lo <= c <= hi;
                        let k = choose|k: int|
                            0 <= k < self.ranges@.len() && self.ranges@[k] == (p, lo, hi);
                        assert(self.ranges@[k].1 <= c <= self.ranges@[k].2);
                    }
                }
            }
        }
        r
    }
}

/// Pushing `x` adds exactly `x` to the membership relation.
pub proof fn lemma_push_contains<T>(pre: Seq<T>, post: Seq<T>, x: T)
    requires
        post == pre.push(x),
    ensures
        forall|y: T| post.contains(y) <==> (pre.contains(y) || y == x),
{
    assert forall|y: T| post.contains(y) <==> (pre.contains(y) || y == x) by {
        if pre.contains(y) {
            let k = choose|k: int| 0 <= k < pre.len() && pre[k] == y;
            assert(post[k] == y);
        }
        if y == x {
            assert(post[post.len() - 1] == y);
        }
        if post.contains(y) {
            let k = choose|k: int| 0 <= k < post.len() && post[k] == y;
            if k < pre.len() {
                assert(pre[k] == y);
            }
        }
    }
}

/// In a duplicate-free sequence, removing the one occurrence of `e` at `i`
/// removes exactly `e` from the membership relation.
proof fn lemma_remove_unique<T>(pre: Seq<T>, post: Seq<T>, i: int, e: T)
    requires
        0 <= i < pre.len(),
        pre[i] == e,
        forall|k: int, l: int| 0 <= k < l < pre.len() ==> pre[k] != pre[l],
        post == pre.remove(i),
    ensures
        forall|x: T| post.contains(x) <==> (pre.contains(x) && x != e),
        forall|k: int, l: int| 0 <= k < l < post.len() ==> post[k] != post[l],
{
    assert forall|x: T| post.contains(x) implies (pre.contains(x) && x != e) by {
        let k = choose|k: int| 0 <= k < post.len() && post[k] == x;
        if k < i {
            assert(pre[k] == x);
        } else {
            assert(pre[k + 1] == x);
        }
    }
    assert forall|x: T| pre.contains(x) && x != e implies post.contains(x) by {
        let k = choose|k: int| 0 <= k < pre.len() && pre[k] == x;
        if k < i {
            assert(post[k] == x);
        } else {
            assert(k > i);
            assert(post[k - 1] == x);
        }
    }
    assert forall|k: int, l: int| 0 <= k < l < post.len() implies post[k] != post[l] by {
        let pk: int = if k < i { k } else { k + 1 };
        let pl: int = if l < i { l } else { l + 1 };
        assert(post[k] == pre[pk]);
        assert(post[l] == pre[pl]);
    }
}

/// In a duplicate-free sequence, a swap-remove at `i` removes exactly the
/// element that stood at `i` from the membership relation.
proof fn lemma_swap_remove_unique<T>(pre: Seq<T>, post: Seq<T>, i: int)
    requires
        0 <= i < pre.len(),
        forall|k: int, l: int| 0 <= k < l < pre.len() ==> pre[k] != pre[l],
        post == pre.update(i, pre.last()).drop_last(),
    ensures
        forall|x: T| post.contains(x) <==> (pre.contains(x) && x != pre[i]),
        forall|k: int, l: int| 0 <= k < l < post.len() ==> post[k] != post[l],
{
    let e = pre[i];
    assert forall|x: T| post.contains(x) implies (pre.contains(x) && x != e) by {
        let k = choose|k: int| 0 <= k < post.len() && post[k] == x;
        if k == i {
            assert(pre[pre.len() - 1] == x);
        } else {
            assert(pre[k] == x);
        }
    }
    assert forall|x: T| pre.contains(x) && x != e implies post.contains(x) by {
        let k = choose|k: int| 0 <= k < pre.len() && pre[k] == x;
        if k == pre.len() - 1 {
            if i < pre.len() - 1 {
                assert(post[i] == x);
            }
        } else if k != i {
            assert(post[k] == x);
        }
    }
    assert forall|k: int, l: int| 0 <= k < l < post.len() implies post[k] != post[l] by {
        let pk: int = if k == i { pre.len() - 1 } else { k };
        let pl: int = if l == i { pre.len() - 1 } else { l };
        assert(post[k] == pre[pk]);
        assert(post[l] == pre[pl]);
    }
}

/// Whether `x` occurs in `v`.
#[verifier::loop_isolation(false)]
pub fn vec_contains_u64(v: &Vec<u64>, x: u64) -> (r: bool)
    ensures
        r == v@.contains(x),
{
    let mut i: usize = 0;
    while i < v.len()
        invariant
            i <= v@.len(),
            forall|k: int| 0 <= k < i ==> v@[k] != x,
        decreases v@.len() - i,
    {
        if v[i] == x {
            proof {
                assert(v@[i as int] == x);
            }
            return true;
        }
        i += 1;
    }
    false
}

/// Subscribing the same `(participant, channel)` pair twice yields the same
/// subscriber relation as subscribing once.
pub proof fn lemma_subscribe_idempotent(
    m0: ChannelMap,
    m1: ChannelMap,
    m2: ChannelMap,
    p: u64,
    c: u64,
)
    requires
        subscribe_step(m0, m1, p, c),
        subscribe_step(m1, m2, p, c),
    ensures
        forall|q: u64, d: u64| m2.has_single(q, d) <==> m1.has_single(q, d),
        forall|q: u64, lo: u64, hi: u64| m2.has_range(q, lo, hi) <==> m1.has_range(q, lo, hi),
        forall|q: u64, d: u64| m2.covers(q, d) <==> m1.covers(q, d),
{
    assert forall|q: u64, d: u64| m2.covers(q, d) <==> m1.covers(q, d) by {
        if m2.covers(q, d) && !m2.has_single(q, d) {
            let (lo, hi) = choose|lo: u64, hi: u64| m2.has_range(q, lo, hi) && lo <= d <= hi;
            assert(m1.has_range(q, lo, hi));
        }
        if m1.covers(q, d) && !m1.has_single(q, d) {
            let (lo, hi) = choose|lo: u64, hi: u64| m1.has_range(q, lo, hi) && lo <= d <= hi;
            assert(m2.has_range(q, lo, hi));
        }
    }
}

/// Unsubscribing a channel the participant never held changes no membership
/// fact at all: a no-op, not an error.
pub proof fn lemma_unsubscribe_never_held_noop(m0: ChannelMap, m1: ChannelMap, p: u64, c: u64)
    requires
        !m0.has_single(p, c),
        unsubscribe_step(m0, m1, p, c),
    ensures
        forall|q: u64, d: u64| m1.has_single(q, d) <==> m0.has_single(q, d),
        forall|q: u64, lo: u64, hi: u64| m1.has_range(q, lo, hi) <==> m0.has_range(q, lo, hi),
        forall|q: u64, d: u64| m1.covers(q, d) <==> m0.covers(q, d),
{
    assert forall|q: u64, d: u64| m1.covers(q, d) <==> m0.covers(q, d) by {
        if m1.covers(q, d) && !m1.has_single(q, d) {
            let (lo, hi) = choose|lo: u64, hi: u64| m1.has_range(q, lo, hi) && lo <= d <= hi;
            assert(m0.has_range(q, lo, hi));
        }
        if m0.covers(q, d) && !m0.has_single(q, d) {
            let (lo, hi) = choose|lo: u64, hi: u64| m0.has_range(q, lo, hi) && lo <= d <= hi;
            assert(m1.has_range(q, lo, hi));
        }
    }
}

} // verus!
