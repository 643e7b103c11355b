//! The decisions of the sequential scheduler: a shared resource is free,
//! busy with a queue of waiting operations and possibly a seal that will
//! consume it, or taken. The operations, the seal and the threads that run
//! them belong to the embedder; this module decides what runs next.

use std::sync::atomic::{AtomicBool, Ordering};
use std::sync::Arc;
use vstd::prelude::*;

verus! {

/// A single-fire thread-safe boolean flag with relaxed ordering
#[derive(Debug, Clone)]
pub struct CancelFlag(Arc<AtomicBool>);

impl CancelFlag {
    /// Create a new canceller
    pub fn new() -> (r: Self) {
        CancelFlag(Arc::new(AtomicBool::new(false)))
    }

    /// Check whether the operation has been cancelled
    pub fn is_cancelled(&self) -> (r: bool) {
        self.0.load(Ordering::Relaxed)
    }

    /// Cancel the operation
    pub fn cancel(&self) {
        self.0.store(true, Ordering::Relaxed)
    }

    /// Another handle to the same flag
    fn share(&self) -> (r: Self)
        ensures
            r == *self,
    {
        CancelFlag(arc_clone(&self.0))
    }
}

/// Calls std's `Arc::clone`, which hands out another pointer to the same
/// allocation: the new `Arc` holds the very value the old one holds.
#[verifier::external_body]
fn arc_clone<T>(a: &Arc<T>) -> (r: Arc<T>)
    ensures
        r == *a,
{
    Arc::clone(a)
}

/// Possible states of a shared resource
#[derive(Debug, Copy, Clone, Hash, PartialEq, Eq, Structural)]
pub enum SharedState {
    /// The resource is ready to be used or taken
    Free,
    /// The resource is currently in use but operations can be asynchronously
    /// scheduled on it
    Busy,
    /// The resource is currently in use and a consuming seal has already been
    /// scheduled, therefore further operations cannot access it and it will
    /// transition to [SharedState::Taken] as soon as the currently pending
    /// operations finish or are cancelled.
    Sealed,
    /// The resource has been removed from this location.
    Taken,
}

/// Error produced when an operation is scheduled or a seal placed on a
/// resource which is either already sealed or taken.
#[derive(Debug, Clone, Copy, PartialEq, Eq)]
pub struct SealedOrTaken;

/// The operations waiting for a busy resource, in the order they were
/// scheduled, each with the flag that cancels it, and the seal that consumes
/// the resource once they are done.
pub struct BusyState<Op, S> {
    queue: Vec<(Op, CancelFlag)>,
    seal: Option<S>,
}

/// A resource that operations are run on one by one.
pub enum SharedResource<T, Op, S> {
    /// Ready to be used or taken
    Free(T),
    /// In use by an operation
    Busy(BusyState<Op, S>),
    /// Removed
    Taken,
}

/// The abstract value of a [SharedResource]
pub enum ResourceModel<T, Op, S> {
    Free(T),
    Busy { queue: Seq<(Op, CancelFlag)>, seal: Option<S> },
    Taken,
}

impl<T, Op, S> View for SharedResource<T, Op, S> {
    type V = ResourceModel<T, Op, S>;

    closed spec fn view(&self) -> ResourceModel<T, Op, S> {
        match self {
            SharedResource::Free(t) => ResourceModel::Free(*t),
            SharedResource::Busy(b) => ResourceModel::Busy { queue: b.queue@, seal: b.seal },
            SharedResource::Taken => ResourceModel::Taken,
        }
    }
}

/// What to do after an operation on a busy resource finished
pub enum NextItem<T, Op, S> {
    /// Run the next queued operation on the resource, handing it the flag
    /// that cancels it
    Run(T, Op, CancelFlag),
    /// The next queued operation was cancelled before it started: run its
    /// early-cancel clean-up on the resource and report the value it leaves
    /// with [SharedResource::finish] again
    Cancelled(T, Op),
    /// No operation is left; consume the resource with the seal
    Seal(T, S),
    /// No operation is left and there is no seal; the resource is free again
    Idle,
}

/// The state a resource reports.
pub open spec fn model_state<T, Op, S>(m: ResourceModel<T, Op, S>) -> SharedState {
    match m {
        ResourceModel::Free(_) => SharedState::Free,
        ResourceModel::Busy { seal, .. } => if seal is Some {
            SharedState::Sealed
        } else {
            SharedState::Busy
        },
        ResourceModel::Taken => SharedState::Taken,
    }
}

/// Taking the value: a free resource hands it out and is taken; any other
/// is left as it was.
pub open spec fn model_take<T, Op, S>(m: ResourceModel<T, Op, S>) -> (ResourceModel<T, Op, S>, Option<T>) {
    match m {
        ResourceModel::Free(t) => (ResourceModel::Taken, Some(t)),
        _ => (m, None),
    }
}

/// Returning a value: a taken resource becomes free with it; any other
/// refuses it and hands it back.
pub open spec fn model_untake<T, Op, S>(m: ResourceModel<T, Op, S>, value: T) -> (
    ResourceModel<T, Op, S>,
    Result<(), T>,
) {
    match m {
        ResourceModel::Taken => (ResourceModel::Free(value), Ok(())),
        _ => (m, Err(value)),
    }
}

/// Scheduling an operation with the flag that cancels it: a free resource
/// becomes busy and the operation runs at once on it; a busy one queues the
/// operation with its flag; a sealed or taken one refuses it.
pub open spec fn model_schedule<T, Op, S>(m: ResourceModel<T, Op, S>, op: Op, flag: CancelFlag) -> (
    ResourceModel<T, Op, S>,
    Result<Option<(T, Op)>, SealedOrTaken>,
) {
    match m {
        ResourceModel::Free(t) => (
            ResourceModel::Busy { queue: Seq::empty(), seal: None },
            Ok(Some((t, op))),
        ),
        ResourceModel::Busy { queue, seal } => if seal is Some {
            (m, Err(SealedOrTaken))
        } else {
            (ResourceModel::Busy { queue: queue.push((op, flag)), seal }, Ok(None))
        },
        ResourceModel::Taken => (m, Err(SealedOrTaken)),
    }
}

/// Sealing: a free resource is taken and consumed by the seal at once; a
/// busy one keeps the seal for when its queue is done; a sealed or taken one
/// refuses it.
pub open spec fn model_seal<T, Op, S>(m: ResourceModel<T, Op, S>, s: S) -> (
    ResourceModel<T, Op, S>,
    Result<Option<(T, S)>, SealedOrTaken>,
) {
    match m {
        ResourceModel::Free(t) => (ResourceModel::Taken, Ok(Some((t, s)))),
        ResourceModel::Busy { queue, seal } => if seal is Some {
            (m, Err(SealedOrTaken))
        } else {
            (ResourceModel::Busy { queue, seal: Some(s) }, Ok(None))
        },
        ResourceModel::Taken => (m, Err(SealedOrTaken)),
    }
}

/// After an operation on a busy resource finished with the resource value
/// `t`: the first queued operation leaves the queue and runs next with its
/// flag, or is skipped if `cancelled` says it was cancelled; with none left, the seal
/// consumes the resource, or the resource is free again.
pub open spec fn model_finish<T, Op, S>(m: ResourceModel<T, Op, S>, t: T, cancelled: bool) -> (
    ResourceModel<T, Op, S>,
    NextItem<T, Op, S>,
) {
    match m {
        ResourceModel::Busy { queue, seal } => if queue.len() > 0 {
            (
                ResourceModel::Busy { queue: queue.drop_first(), seal },
                if cancelled {
                    NextItem::Cancelled(t, queue[0].0)
                } else {
                    NextItem::Run(t, queue[0].0, queue[0].1)
                },
            )
        } else {
            match seal {
                Some(s) => (ResourceModel::Taken, NextItem::Seal(t, s)),
                None => (ResourceModel::Free(t), NextItem::Idle),
            }
        },
        _ => (m, NextItem::Idle),
    }
}

/// The waiting operations of a busy resource; none for any other.
pub open spec fn busy_queue<T, Op, S>(m: ResourceModel<T, Op, S>) -> Seq<(Op, CancelFlag)> {
    match m {
        ResourceModel::Busy { queue, .. } => queue,
        _ => Seq::empty(),
    }
}

/// A busy resource without the first `k` waiting operations.
pub open spec fn skip_queue<T, Op, S>(m: ResourceModel<T, Op, S>, k: int) -> ResourceModel<T, Op, S> {
    match m {
        ResourceModel::Busy { queue, seal } => ResourceModel::Busy { queue: queue.skip(k), seal },
        _ => m,
    }
}

/// The events of several clean-ups, one after the other.
pub open spec fn joined<E>(evs: Seq<Vec<E>>) -> Seq<E>
    decreases evs.len(),
{
    if evs.len() == 0 {
        Seq::empty()
    } else {
        joined(evs.drop_last()) + evs.last()@
    }
}

/// What [SharedResource::rotate] did, from the resource `m` and the value
/// `t`: it ran the clean-up `f` on the first `evs.len()` waiting operations,
/// one after the other, the values passing through `ts` and the events of
/// each clean-up being `evs`; then it decided as [model_finish] does for a
/// head that is not cancelled, giving `state` and `item`, and handed back
/// all the events in order.
pub open spec fn rotation<T, Op, S, E, F: Fn(T, Op) -> (T, Vec<E>)>(
    m: ResourceModel<T, Op, S>,
    t: T,
    f: F,
    ts: Seq<T>,
    evs: Seq<Vec<E>>,
    state: ResourceModel<T, Op, S>,
    item: NextItem<T, Op, S>,
    events: Seq<E>,
) -> bool {
    &&& ts.len() == evs.len() + 1
    &&& ts[0] == t
    &&& evs.len() <= busy_queue(m).len()
    &&& forall|i: int|
        0 <= i < evs.len() ==> #[trigger] call_ensures(f, (ts[i], busy_queue(m)[i].0), (ts[i + 1], evs[i]))
    &&& events == joined(evs)
    &&& (state, item) == model_finish(skip_queue(m, evs.len() as int), ts[evs.len() as int], false)
}

impl<T, Op, S> SharedResource<T, Op, S> {
    /// Wrap a value to be accessible to a scheduler.
    pub fn wrap(t: T) -> (r: Self)
        ensures
            r@ == ResourceModel::<T, Op, S>::Free(t),
    {
        SharedResource::Free(t)
    }

    /// Check the state of the resource
    pub fn state(&self) -> (r: SharedState)
        ensures
            r == model_state(self@),
    {
        match self {
            SharedResource::Busy(b) => {
                if b.seal.is_some() {
                    SharedState::Sealed
                } else {
                    SharedState::Busy
                }
            },
            SharedResource::Free(_) => SharedState::Free,
            SharedResource::Taken => SharedState::Taken,
        }
    }

    /// Remove the value if it's free.
    pub fn take(&mut self) -> (r: Option<T>)
        ensures
            (final(self)@, r) == model_take(old(self)@),
    {
        let mut cur = SharedResource::Taken;
        std::mem::swap(&mut cur, self);
        match cur {
            SharedResource::Free(t) => Some(t),
            other => {
                *self = other;
                None
            },
        }
    }

    /// Return the value to a resource that doesn't have one.
    pub fn untake(&mut self, value: T) -> (r: Result<(), T>)
        ensures
            (final(self)@, r) == model_untake(old(self)@, value),
    {
        match self {
            SharedResource::Taken => {
                *self = SharedResource::Free(value);
                Ok(())
            },
            _ => Err(value),
        }
    }

    /// Schedule an operation. Where it is accepted, the flag that cancels it
    /// comes back with, for a free resource, the value and the operation to
    /// run at once; for a busy one, `None`: it was queued with that flag.
    pub fn schedule(&mut self, op: Op) -> (r: Result<(CancelFlag, Option<(T, Op)>), SealedOrTaken>)
        ensures
            match r {
                Ok((f, now)) => (final(self)@, Ok::<Option<(T, Op)>, SealedOrTaken>(now))
                    == model_schedule(old(self)@, op, f),
                Err(e) => forall|f: CancelFlag|
                    (final(self)@, Err::<Option<(T, Op)>, SealedOrTaken>(e)) == #[trigger] model_schedule(
                        old(self)@,
                        op,
                        f,
                    ),
            },
    {
        let mut cur = SharedResource::Taken;
        std::mem::swap(&mut cur, self);
        match cur {
            SharedResource::Taken => Err(SealedOrTaken),
            SharedResource::Busy(b) => {
                if b.seal.is_some() {
                    *self = SharedResource::Busy(b);
                    Err(SealedOrTaken)
                } else {
                    let mut b = b;
                    let flag = CancelFlag::new();
                    let queued = flag.share();
                    b.queue.push((op, queued));
                    *self = SharedResource::Busy(b);
                    Ok((flag, None))
                }
            },
            SharedResource::Free(t) => {
                *self = SharedResource::Busy(BusyState { queue: Vec::new(), seal: None });
                Ok((CancelFlag::new(), Some((t, op))))
            },
        }
    }

    /// Schedule a seal that consumes the value. `Ok(Some(..))` hands back the
    /// value and the seal to run at once; `Ok(None)` means it waits for the
    /// queued operations.
    pub fn seal(&mut self, s: S) -> (r: Result<Option<(T, S)>, SealedOrTaken>)
        ensures
            (final(self)@, r) == model_seal(old(self)@, s),
    {
        let mut cur = SharedResource::Taken;
        std::mem::swap(&mut cur, self);
        match cur {
            SharedResource::Taken => Err(SealedOrTaken),
            SharedResource::Busy(b) => {
                if b.seal.is_some() {
                    *self = SharedResource::Busy(b);
                    Err(SealedOrTaken)
                } else {
                    *self = SharedResource::Busy(BusyState { queue: b.queue, seal: Some(s) });
                    Ok(None)
                }
            },
            SharedResource::Free(t) => Ok(Some((t, s))),
        }
    }

    /// Whether the operation at the head of the queue has been cancelled.
    /// With no operation waiting the answer is `false`; otherwise it reads a
    /// flag that other threads set, so nothing more is stated of it.
    pub fn head_cancelled(&self) -> (r: bool)
        ensures
            r ==> (self@ matches ResourceModel::Busy { queue, .. } && queue.len() > 0),
    {
        match self {
            SharedResource::Busy(b) => {
                if b.queue.len() > 0 {
                    b.queue[0].1.is_cancelled()
                } else {
                    false
                }
            },
            _ => false,
        }
    }

    /// An operation on the busy resource finished and left the value `t`,
    /// and `cancelled` tells whether the head of the queue was cancelled:
    /// decide what happens next.
    pub fn finish_with(&mut self, t: T, cancelled: bool) -> (r: NextItem<T, Op, S>)
        requires
            old(self)@ is Busy,
        ensures
            (final(self)@, r) == model_finish(old(self)@, t, cancelled),
    {
        let mut cur = SharedResource::Taken;
        std::mem::swap(&mut cur, self);
        match cur {
            SharedResource::Busy(b) => {
                let BusyState { queue, seal } = b;
                if queue.len() > 0 {
                    let mut queue = queue;
                    let ghost before = queue@;
                    let (op, flag) = queue.remove(0);
                    assert(queue@ =~= before.drop_first());
                    *self = SharedResource::Busy(BusyState { queue, seal });
                    if cancelled {
                        NextItem::Cancelled(t, op)
                    } else {
                        NextItem::Run(t, op, flag)
                    }
                } else {
                    match seal {
                        Some(s) => NextItem::Seal(t, s),
                        None => {
                            *self = SharedResource::Free(t);
                            NextItem::Idle
                        },
                    }
                }
            },
            other => {
                *self = other;
                NextItem::Idle
            },
        }
    }

    /// An operation on the busy resource finished and left the value `t`:
    /// the cancelled operations at the head of the queue leave it, each
    /// through its clean-up `early_cancel`, which takes the value and hands
    /// it back with the events it produced; then what happens next is
    /// decided for the first operation that was not cancelled. The events of
    /// the clean-ups come back in order. Which operations were cancelled
    /// rests on flags that other threads set.
    pub fn rotate<E, F: Fn(T, Op) -> (T, Vec<E>)>(&mut self, t: T, early_cancel: F) -> (r: (
        NextItem<T, Op, S>,
        Vec<E>,
    ))
        requires
            old(self)@ is Busy,
            forall|x: T, op: Op| call_requires(early_cancel, (x, op)),
        ensures
            exists|ts: Seq<T>, evs: Seq<Vec<E>>|
                #[trigger] rotation(old(self)@, t, early_cancel, ts, evs, final(self)@, r.0, r.1@),
    {
        let ghost m0 = self@;
        assert(m0 == old(self)@);
        let ghost q = busy_queue(m0);
        let ghost mut ts: Seq<T> = seq![t];
        let ghost mut evs: Seq<Vec<E>> = Seq::empty();
        let mut cur = t;
        let mut events: Vec<E> = Vec::new();
        assert(skip_queue(m0, 0) == m0) by {
            assert(q.skip(0) =~= q);
        }
        loop
            invariant
                m0 is Busy,
                m0 == old(self)@,
                q == busy_queue(m0),
                self@ == skip_queue(m0, evs.len() as int),
                ts.len() == evs.len() + 1,
                ts[0] == t,
                ts[evs.len() as int] == cur,
                evs.len() <= q.len(),
                forall|i: int|
                    0 <= i < evs.len() ==> #[trigger] call_ensures(
                        early_cancel,
                        (ts[i], q[i].0),
                        (ts[i + 1], evs[i]),
                    ),
                events@ == joined(evs),
                forall|x: T, op: Op| call_requires(early_cancel, (x, op)),
            decreases q.len() - evs.len(),
        {
            let c = self.head_cancelled();
            let ghost before = self@;
            match self.finish_with(cur, c) {
                NextItem::Cancelled(t1, op) => {
                    assert(q.skip(evs.len() as int).len() > 0);
                    assert(op == q[evs.len() as int].0);
                    let (t2, mut more) = early_cancel(t1, op);
                    let ghost mv = more;
                    events.append(&mut more);
                    proof {
                        let k = evs.len() as int;
                        assert(q.skip(k).drop_first() =~= q.skip(k + 1));
                        let evs2 = evs.push(mv);
                        let ts2 = ts.push(t2);
                        assert(evs2.drop_last() =~= evs);
                        assert(joined(evs2) == joined(evs) + mv@);
                        assert forall|i: int| 0 <= i < evs2.len() implies #[trigger] call_ensures(
                            early_cancel,
                            (ts2[i], q[i].0),
                            (ts2[i + 1], evs2[i]),
                        ) by {
                            if i < k {
                                assert(ts2[i] == ts[i] && ts2[i + 1] == ts[i + 1] && evs2[i] == evs[i]);
                            }
                        }
                        evs = evs2;
                        ts = ts2;
                    }
                    cur = t2;
                },
                other => {
                    let res = (other, events);
                    proof {
                        assert(rotation(m0, t, early_cancel, ts, evs, self@, res.0, res.1@));
                        assert(m0 == old(self)@);
                        assert(rotation(old(self)@, t, early_cancel, ts, evs, self@, res.0, res.1@));
                    }
                    return res;
                },
            }
        }
    }

    /// An operation on the busy resource finished and left the value `t`:
    /// decide what happens next. A cancelled head of the queue is reported
    /// as [NextItem::Cancelled] and does not run.
    pub fn finish(&mut self, t: T) -> (r: NextItem<T, Op, S>)
        requires
            old(self)@ is Busy,
        ensures
            (final(self)@, r) == model_finish(old(self)@, t, r is Cancelled),
    {
        let c = self.head_cancelled();
        self.finish_with(t, c)
    }
}

/// Taking the value of a free resource and returning it leaves the resource
/// as it was.
pub proof fn law_take_untake<T, Op, S>(t: T)
    ensures
        ({
            let (taken, got) = model_take(ResourceModel::<T, Op, S>::Free(t));
            got == Some(t) && model_untake(taken, t) == (ResourceModel::<T, Op, S>::Free(t), Ok::<(), T>(()))
        }),
{
}

/// Once a seal is accepted, the resource refuses further operations and
/// further seals.
pub proof fn law_sealed_refuses<T, Op, S>(
    m: ResourceModel<T, Op, S>,
    s: S,
    op: Op,
    f: CancelFlag,
    s2: S,
)
    requires
        model_seal(m, s).1 is Ok,
    ensures
        model_schedule(model_seal(m, s).0, op, f).1 is Err,
        model_seal(model_seal(m, s).0, s2).1 is Err,
        model_state(model_seal(m, s).0) == SharedState::Sealed || model_state(model_seal(m, s).0)
            == SharedState::Taken,
{
}

/// A taken resource refuses operations and seals and has no value to hand
/// out, and it stays taken.
pub proof fn law_taken_refuses<T, Op, S>(op: Op, f: CancelFlag, s: S)
    ensures
        model_schedule(ResourceModel::<T, Op, S>::Taken, op, f) == (
            ResourceModel::<T, Op, S>::Taken,
            Err::<Option<(T, Op)>, SealedOrTaken>(SealedOrTaken),
        ),
        model_seal(ResourceModel::<T, Op, S>::Taken, s) == (
            ResourceModel::<T, Op, S>::Taken,
            Err::<Option<(T, S)>, SealedOrTaken>(SealedOrTaken),
        ),
        model_take(ResourceModel::<T, Op, S>::Taken) == (ResourceModel::<T, Op, S>::Taken, None::<T>),
{
}

/// Operations run one at a time in the order they were scheduled: on a free
/// resource the first runs at once, the second waits, and it runs with its
/// own flag when the first finishes; then the resource is free again.
pub proof fn law_operations_in_order<T, Op, S>(
    t0: T,
    a: Op,
    fa: CancelFlag,
    b: Op,
    fb: CancelFlag,
    t1: T,
    t2: T,
)
    ensures
        ({
            let (m1, r1) = model_schedule(ResourceModel::<T, Op, S>::Free(t0), a, fa);
            let (m2, r2) = model_schedule(m1, b, fb);
            let (m3, n1) = model_finish(m2, t1, false);
            let (m4, n2) = model_finish(m3, t2, false);
            &&& r1 == Ok::<Option<(T, Op)>, SealedOrTaken>(Some((t0, a)))
            &&& r2 == Ok::<Option<(T, Op)>, SealedOrTaken>(None)
            &&& n1 == NextItem::<T, Op, S>::Run(t1, b, fb)
            &&& n2 == NextItem::<T, Op, S>::Idle
            &&& m4 == ResourceModel::<T, Op, S>::Free(t2)
        }),
{
    let (m1, r1) = model_schedule(ResourceModel::<T, Op, S>::Free(t0), a, fa);
    let (m2, r2) = model_schedule(m1, b, fb);
    assert(m2 == ResourceModel::<T, Op, S>::Busy { queue: seq![(b, fb)], seal: None });
    assert(seq![(b, fb)].drop_first() =~= Seq::<(Op, CancelFlag)>::empty());
    let (m3, n1) = model_finish(m2, t1, false);
    assert(m3 == ResourceModel::<T, Op, S>::Busy { queue: Seq::empty(), seal: None });
}

/// A queued operation runs before the seal: a seal placed while an
/// operation waits consumes the resource only after that operation.
pub proof fn law_seal_after_queue<T, Op, S>(
    t0: T,
    a: Op,
    fa: CancelFlag,
    b: Op,
    fb: CancelFlag,
    s: S,
    t1: T,
    t2: T,
)
    ensures
        ({
            let (m1, _) = model_schedule(ResourceModel::<T, Op, S>::Free(t0), a, fa);
            let (m2, _) = model_schedule(m1, b, fb);
            let (m3, r3) = model_seal(m2, s);
            let (m4, n1) = model_finish(m3, t1, false);
            let (m5, n2) = model_finish(m4, t2, false);
            &&& r3 == Ok::<Option<(T, S)>, SealedOrTaken>(None)
            &&& n1 == NextItem::<T, Op, S>::Run(t1, b, fb)
            &&& n2 == NextItem::<T, Op, S>::Seal(t2, s)
            &&& m5 == ResourceModel::<T, Op, S>::Taken
        }),
{
    let (m1, _) = model_schedule(ResourceModel::<T, Op, S>::Free(t0), a, fa);
    let (m2, _) = model_schedule(m1, b, fb);
    assert(m2 == ResourceModel::<T, Op, S>::Busy { queue: seq![(b, fb)], seal: None });
    let (m3, _) = model_seal(m2, s);
    assert(seq![(b, fb)].drop_first() =~= Seq::<(Op, CancelFlag)>::empty());
    let (m4, _) = model_finish(m3, t1, false);
    assert(m4 == ResourceModel::<T, Op, S>::Busy { queue: Seq::empty(), seal: Some(s) });
}

/// Cancelling the operation at the head of the queue decides only whether
/// it runs: the resource moves on in the same way, and the operation that
/// would have run is reported as cancelled instead.
pub proof fn law_cancel_only_skips<T, Op, S>(m: ResourceModel<T, Op, S>, t: T)
    ensures
        model_finish(m, t, true).0 == model_finish(m, t, false).0,
        model_finish(m, t, false).1 matches NextItem::Run(t1, op, _) ==> model_finish(m, t, true).1
            == NextItem::<T, Op, S>::Cancelled(t1, op),
        !(model_finish(m, t, false).1 is Run) ==> model_finish(m, t, true).1 == model_finish(
            m,
            t,
            false,
        ).1,
{
}

/// A sealed or taken resource refuses an operation and stays as it was; a
/// free one accepts it, hands back its value for the operation to run at
/// once, and is busy afterwards with nothing waiting.
pub proof fn law_schedule_by_state<T, Op, S>(m: ResourceModel<T, Op, S>, op: Op, f: CancelFlag)
    ensures
        model_state(m) == SharedState::Sealed || model_state(m) == SharedState::Taken ==> model_schedule(
            m,
            op,
            f,
        ) == (m, Err::<Option<(T, Op)>, SealedOrTaken>(SealedOrTaken)),
        m matches ResourceModel::Free(t) ==> model_schedule(m, op, f) == (
            ResourceModel::<T, Op, S>::Busy { queue: Seq::empty(), seal: None },
            Ok::<Option<(T, Op)>, SealedOrTaken>(Some((t, op))),
        ) && model_state(model_schedule(m, op, f).0) == SharedState::Busy,
{
}

} // verus!
