//! The ordered database pipeline: persistence requests queued per object.
//!
//! Operations on one object identifier complete in the order they were
//! submitted; operations on different objects are unordered relative to
//! each other. The pipeline emits each operation exactly once, to be
//! answered by exactly one completion message on the requesting channel.

use vstd::prelude::*;
use crate::errors::PersistenceError;

verus! {

broadcast use vstd::seq_lib::group_filter_ensures;

/// What a database operation asks of the storage backend.
#[derive(Clone, Copy, Debug, PartialEq, Eq, Structural)]
pub enum OpKind {
    Create,
    Read,
    Update,
    Delete,
}

/// One persistence request: the object it concerns, what to do, and its
/// opaque encoded payload.
pub struct DbOperation {
    pub object_id: u64,
    pub kind: OpKind,
    pub payload: Vec<u8>,
}

impl View for DbOperation {
    type V = (u64, OpKind, Seq<u8>);

    open spec fn view(&self) -> Self::V {
        (self.object_id, self.kind, self.payload@)
    }
}

/// The answer the requester sees for one operation: a result payload, or
/// the failure surfaced as a failed completion.
pub enum Completion {
    Success(Vec<u8>),
    Failure(PersistenceError),
}

/// Operations addressed to this object identifier.
pub open spec fn for_object(oid: u64) -> spec_fn((u64, OpKind, Seq<u8>)) -> bool {
    |m: (u64, OpKind, Seq<u8>)| m.0 == oid
}

/// The views of a sequence of operations, in order.
pub open spec fn op_views(s: Seq<DbOperation>) -> Seq<(u64, OpKind, Seq<u8>)> {
    s.map_values(|o: DbOperation| o@)
}

/// The pipeline: every pending operation, in global submission order.
pub struct DbPipeline {
    pub ops: Vec<DbOperation>,
}

impl DbPipeline {
    /// All pending operations, oldest first.
    pub open spec fn all_ops(self) -> Seq<(u64, OpKind, Seq<u8>)> {
        op_views(self.ops@)
    }

    /// The pending operations for one object, oldest first.
    pub open spec fn ops_of(self, oid: u64) -> Seq<(u64, OpKind, Seq<u8>)> {
        op_views(self.ops@).filter(for_object(oid))
    }

    /// A pipeline with nothing pending.
    pub fn new() -> (r: DbPipeline)
        ensures
            r.all_ops() == Seq::<(u64, OpKind, Seq<u8>)>::empty(),
            forall|oid: u64| r.ops_of(oid) == Seq::<(u64, OpKind, Seq<u8>)>::empty(),
    {
        let r = DbPipeline { ops: Vec::new() };
        proof {
            assert(op_views(r.ops@) =~= Seq::<(u64, OpKind, Seq<u8>)>::empty());
            assert forall|oid: u64| r.ops_of(oid) == Seq::<(u64, OpKind, Seq<u8>)>::empty() by {
                lemma_filter_none(op_views(r.ops@), for_object(oid));
            }
        }
        r
    }

    /// Enqueue one operation: it joins the back of its object's queue, and
    /// the queue of every other object is untouched.
    pub fn submit(&mut self, op: DbOperation)
        ensures
            final(self).ops_of(op.object_id) == old(self).ops_of(op.object_id).push(op@),
            forall|oid: u64|
                oid != op.object_id ==> final(self).ops_of(oid) == old(self).ops_of(oid),
            final(self).all_ops() == old(self).all_ops().push(op@),
    {
        let ghost o = op@;
        let ghost pre = self.ops@;
        self.ops.push(op);
        proof {
            assert(op_views(self.ops@) =~= op_views(pre).push(o));
            assert(op_views(pre).push(o) =~= op_views(pre) + seq![o]);
            assert forall|oid: u64|
                #[trigger] self.ops_of(oid) == (if oid == o.0 {
                    op_views(pre).filter(for_object(oid)).push(o)
                } else {
                    op_views(pre).filter(for_object(oid))
                }) by {
                Seq::<(u64, OpKind, Seq<u8>)>::filter_distributes_over_add(
                    op_views(pre),
                    seq![o],
                    for_object(oid),
                );
                lemma_filter_singleton(o, for_object(oid));
                if oid == o.0 {
                    assert(op_views(pre).filter(for_object(oid)) + seq![o] =~= op_views(
                        pre,
                    ).filter(for_object(oid)).push(o));
                } else {
                    assert(op_views(pre).filter(for_object(oid)) + Seq::<
                        (u64, OpKind, Seq<u8>),
                    >::empty() =~= op_views(pre).filter(for_object(oid)));
                }
            }
        }
    }

    /// Hand the storage backend the oldest pending operation for one
    /// object, removing it from the pipeline; nothing when that object has
    /// no pending operation. Other objects' queues are untouched.
    #[verifier::loop_isolation(false)]
    pub fn complete(&mut self, object_id: u64) -> (r: Option<DbOperation>)
        ensures
            old(self).ops_of(object_id).len() == 0 ==> r is None && *final(self) == *old(
                self,
            ),
            old(self).ops_of(object_id).len() > 0 ==> (r matches Some(o) && o@ == old(
                self,
            ).ops_of(object_id)[0] && final(self).ops_of(object_id) == old(self).ops_of(
                object_id,
            ).subrange(1, old(self).ops_of(object_id).len() as int) && complete_step(
                *old(self),
                *final(self),
                object_id,
                o@,
            )),
            forall|oid: u64| oid != object_id ==> final(self).ops_of(oid) == old(self).ops_of(
                oid,
            ),
    {
        let ghost m = op_views(self.ops@);
        let mut i: usize = 0;
        while i < self.ops.len()
            invariant
                *self == *old(self),
                i <= self.ops@.len(),
                forall|k: int| 0 <= k < i ==> self.ops@[k].object_id != object_id,
            decreases self.ops@.len() - i,
        {
            if self.ops[i].object_id == object_id {
                let ghost idx = i as int;
                let o = self.ops.remove(i);
                proof {
                    let pre = m.subrange(0, idx);
                    let mid = seq![m[idx]];
                    let post = m.subrange(idx + 1, m.len() as int);
                    assert(m =~= pre + (mid + post));
                    assert(op_views(self.ops@) =~= pre + post);
                    assert forall|k: int| 0 <= k < pre.len() implies !for_object(object_id)(
                        #[trigger] pre[k],
                    ) by {
                        assert(pre[k] == old(self).ops@[k]@);
                    }
                    lemma_filter_none(pre, for_object(object_id));
                    assert(m[idx] == o@ && o@.0 == object_id);
                    assert forall|oid: u64|
                        (#[trigger] m.filter(for_object(oid)) == pre.filter(for_object(oid)) + (
                        mid.filter(for_object(oid)) + post.filter(for_object(oid)))
                            && op_views(self.ops@).filter(for_object(oid)) == pre.filter(
                            for_object(oid),
                        ) + post.filter(for_object(oid))) by {
                        Seq::<(u64, OpKind, Seq<u8>)>::filter_distributes_over_add(
                            pre,
                            mid + post,
                            for_object(oid),
                        );
                        Seq::<(u64, OpKind, Seq<u8>)>::filter_distributes_over_add(
                            mid,
                            post,
                            for_object(oid),
                        );
                        Seq::<(u64, OpKind, Seq<u8>)>::filter_distributes_over_add(
                            pre,
                            post,
                            for_object(oid),
                        );
                    }
                    lemma_filter_singleton(m[idx], for_object(object_id));
                    assert(m.filter(for_object(object_id)) =~= seq![o@] + post.filter(
                        for_object(object_id),
                    ));
                    assert(m.filter(for_object(object_id))[0] == o@);
                    assert(m.filter(for_object(object_id)).subrange(
                        1,
                        m.filter(for_object(object_id)).len() as int,
                    ) =~= post.filter(for_object(object_id)));
                    assert forall|oid: u64|
                        oid != object_id implies #[trigger] op_views(self.ops@).filter(
                        for_object(oid),
                    ) == m.filter(for_object(oid)) by {
                        lemma_filter_singleton(m[idx], for_object(oid));
                        assert(pre.filter(for_object(oid)) + (Seq::<
                            (u64, OpKind, Seq<u8>),
                        >::empty() + post.filter(for_object(oid))) =~= pre.filter(
                            for_object(oid),
                        ) + post.filter(for_object(oid)));
                    }
                }
                return Some(o);
            }
            i += 1;
        }
        proof {
            assert forall|k: int| 0 <= k < m.len() implies !for_object(object_id)(
                #[trigger] m[k],
            ) by {
                assert(m[k] == self.ops@[k]@);
            }
            lemma_filter_none(m, for_object(object_id));
        }
        None
    }

    /// How many operations are pending over all objects.
    pub fn pending(&self) -> (n: usize)
        ensures
            n == self.all_ops().len(),
    {
        self.ops.len()
    }
}

/// A sequence with no matching element filters to nothing.
proof fn lemma_filter_none<A>(s: Seq<A>, pred: spec_fn(A) -> bool)
    requires
        forall|i: int| 0 <= i < s.len() ==> !pred(#[trigger] s[i]),
    ensures
        s.filter(pred) == Seq::<A>::empty(),
    decreases s.len(),
{
    reveal(Seq::filter);
    if s.len() > 0 {
        lemma_filter_none(s.drop_last(), pred);
        assert(!pred(s.last()));
    } else {
        assert(s.filter(pred) =~= Seq::<A>::empty());
    }
}

/// Filtering a single element keeps it exactly when it matches.
proof fn lemma_filter_singleton<A>(x: A, pred: spec_fn(A) -> bool)
    ensures
        pred(x) ==> seq![x].filter(pred) == seq![x],
        !pred(x) ==> seq![x].filter(pred) == Seq::<A>::empty(),
{
    reveal(Seq::filter);
    let s = seq![x];
    assert(s.drop_last() =~= Seq::<A>::empty());
    assert(Seq::<A>::empty().filter(pred) =~= Seq::<A>::empty());
    assert(s.last() == x);
    if pred(x) {
        assert(s.filter(pred) =~= Seq::<A>::empty().push(x));
        assert(Seq::<A>::empty().push(x) =~= s);
    }
}

/// How `complete(oid)` changes the pipeline: the oldest pending operation
/// of that object is returned and removed.
pub open spec fn complete_step(
    pre: DbPipeline,
    post: DbPipeline,
    oid: u64,
    o: (u64, OpKind, Seq<u8>),
) -> bool {
    &&& pre.ops_of(oid).len() > 0
    &&& o == pre.ops_of(oid)[0]
    &&& post.ops_of(oid) == pre.ops_of(oid).subrange(1, pre.ops_of(oid).len() as int)
}

/// A run of completions for one object: `outs` is, in order, what each
/// successive `complete(oid)` returned on the way from `pre` to `post`.
pub open spec fn completes_to(
    pre: DbPipeline,
    post: DbPipeline,
    oid: u64,
    outs: Seq<(u64, OpKind, Seq<u8>)>,
) -> bool
    decreases outs.len(),
{
    if outs.len() == 0 {
        post.ops_of(oid) == pre.ops_of(oid)
    } else {
        exists|mid: DbPipeline|
            #[trigger] complete_step(pre, mid, oid, outs[0]) && completes_to(
                mid,
                post,
                oid,
                outs.subrange(1, outs.len() as int),
            )
    }
}

/// Completions replay the pending queue from the front: whatever a run of
/// `complete(oid)` calls returns is exactly the oldest pending operations
/// of that object, in order.
pub proof fn lemma_completes_to_prefix(
    pre: DbPipeline,
    post: DbPipeline,
    oid: u64,
    outs: Seq<(u64, OpKind, Seq<u8>)>,
)
    requires
        completes_to(pre, post, oid, outs),
    ensures
        outs.len() <= pre.ops_of(oid).len(),
        outs == pre.ops_of(oid).subrange(0, outs.len() as int),
        post.ops_of(oid) == pre.ops_of(oid).subrange(
            outs.len() as int,
            pre.ops_of(oid).len() as int,
        ),
    decreases outs.len(),
{
    if outs.len() == 0 {
        assert(outs =~= pre.ops_of(oid).subrange(0, 0));
        assert(pre.ops_of(oid).subrange(0, pre.ops_of(oid).len() as int) =~= pre.ops_of(oid));
    } else {
        let tail = outs.subrange(1, outs.len() as int);
        let mid = choose|mid: DbPipeline|
            #[trigger] complete_step(pre, mid, oid, outs[0]) && completes_to(
                mid,
                post,
                oid,
                tail,
            );
        lemma_completes_to_prefix(mid, post, oid, tail);
        let q = pre.ops_of(oid);
        assert(mid.ops_of(oid) == q.subrange(1, q.len() as int));
        assert(tail =~= q.subrange(1, 1 + tail.len() as int)) by {
            assert forall|k: int| 0 <= k < tail.len() implies tail[k] == q.subrange(
                1,
                1 + tail.len() as int,
            )[k] by {
                assert(tail[k] == mid.ops_of(oid).subrange(0, tail.len() as int)[k]);
            }
        }
        assert(outs =~= q.subrange(0, outs.len() as int)) by {
            assert forall|k: int|
                0 <= k < outs.len() implies outs[k] == q.subrange(0, outs.len() as int)[k] by {
                if k == 0 {
                    assert(outs[0] == q[0]);
                } else {
                    assert(outs[k] == tail[k - 1]);
                    assert(tail[k - 1] == q.subrange(1, 1 + tail.len() as int)[k - 1]);
                }
            }
        }
        assert(post.ops_of(oid) =~= q.subrange(outs.len() as int, q.len() as int)) by {
            assert(post.ops_of(oid) == mid.ops_of(oid).subrange(
                tail.len() as int,
                mid.ops_of(oid).len() as int,
            ));
        }
    }
}

/// Per-object submission-order execution, over any prior state: whatever
/// was already pending, after operation `op1` and then `op2` are
/// submitted for one object, any run of completions for that object that
/// reaches them returns `op1` strictly before `op2`. Operations on other
/// objects carry no such ordering.
pub proof fn lemma_per_object_submission_order(
    p0: DbPipeline,
    p1: DbPipeline,
    p2: DbPipeline,
    post: DbPipeline,
    oid: u64,
    op1: (u64, OpKind, Seq<u8>),
    op2: (u64, OpKind, Seq<u8>),
    outs: Seq<(u64, OpKind, Seq<u8>)>,
)
    requires
        p1.ops_of(oid) == p0.ops_of(oid).push(op1),
        p2.ops_of(oid) == p1.ops_of(oid).push(op2),
        completes_to(p2, post, oid, outs),
        outs.len() > p0.ops_of(oid).len() + 1,
    ensures
        outs[p0.ops_of(oid).len() as int] == op1,
        outs[p0.ops_of(oid).len() as int + 1] == op2,
{
    lemma_completes_to_prefix(p2, post, oid, outs);
    let k = p0.ops_of(oid).len() as int;
    assert(p2.ops_of(oid)[k] == op1);
    assert(p2.ops_of(oid)[k + 1] == op2);
    assert(outs[k] == p2.ops_of(oid).subrange(0, outs.len() as int)[k]);
    assert(outs[k + 1] == p2.ops_of(oid).subrange(0, outs.len() as int)[k + 1]);
}

/// What the storage backend reported for one dequeued operation — or
/// that its deadline passed with no report at all.
pub enum BackendOutcome {
    /// The backend finished the operation with this result payload.
    Completed(Vec<u8>),
    /// The backend reported the operation failed.
    Rejected(PersistenceError),
    /// No report arrived before the operation's deadline.
    TimedOut,
}

/// Pair one dequeued operation with the exactly-one completion message
/// owed on the requesting channel: the backend's result as a success, a
/// backend failure as a failed completion, and an expired deadline as a
/// timeout failure — the requester sees a completion either way, never
/// silence.
pub fn completion_for(op: &DbOperation, outcome: BackendOutcome) -> (r: (u64, Completion))
    ensures
        r.0 == op.object_id,
        outcome matches BackendOutcome::Completed(bytes) ==> (r.1 matches Completion::Success(
            b,
        ) && b@ == bytes@),
        outcome matches BackendOutcome::Rejected(e) ==> (r.1 matches Completion::Failure(f)
            && f == e),
        outcome is TimedOut ==> (r.1 matches Completion::Failure(f) && f
            == PersistenceError::Timeout),
{
    match outcome {
        BackendOutcome::Completed(bytes) => (op.object_id, Completion::Success(bytes)),
        BackendOutcome::Rejected(e) => (op.object_id, Completion::Failure(e)),
        BackendOutcome::TimedOut => (
            op.object_id,
            Completion::Failure(PersistenceError::Timeout),
        ),
    }
}

} // verus!
