//! The messages exchanged between the launcher and the collector, and the
//! in-memory FIFO queue that carries them.

use std::collections::VecDeque;
use vstd::prelude::*;

verus! {

/// How one execution of the target ended.
#[derive(Debug, Clone, Copy, PartialEq, Eq, Structural)]
pub enum ExitKind {
    /// The run finished normally.
    Normal,
    /// The target crashed.
    Crash,
    /// The target ran out of memory.
    Oom,
    /// The target did not finish in time.
    Timeout,
    /// Two executors run side by side ended differently.
    Diff {
        /// How the first executor's run ended.
        primary: DiffExitKind,
        /// How the second executor's run ended.
        secondary: DiffExitKind,
    },
}

/// How one run of a differential pair ended.
#[derive(Debug, Clone, Copy, PartialEq, Eq, Structural)]
pub enum DiffExitKind {
    /// The run finished normally.
    Normal,
    /// The target crashed.
    Crash,
    /// The target ran out of memory.
    Oom,
    /// The target did not finish in time.
    Timeout,
    /// The run itself was a differential run whose halves differed.
    Diff,
}

/// Work package sent from the launcher to the worker.
#[derive(Debug, Clone)]
pub struct RemoteWorkerWorkPackage<I> {
    /// Fuzzer input for the worker to execute.
    pub input: I,
}

/// Result message sent from the worker to the collector.
#[derive(Debug, Clone)]
pub struct RemoteWorkerResult<I> {
    /// The original input corresponding to this execution result.
    pub input: I,
    /// The worker's execution outcome.
    pub exit_kind: ExitKind,
    /// Serialized observers produced during the execution.
    pub observers_buf: Vec<u8>,
}

/// The abstract contents of a queue: pending work packages and pending
/// results, each oldest first.
pub struct QueueState<I> {
    pub work: Seq<RemoteWorkerWorkPackage<I>>,
    pub results: Seq<RemoteWorkerResult<I>>,
}

impl<I> QueueState<I> {
    /// The state with nothing pending.
    pub open spec fn empty() -> Self {
        QueueState { work: Seq::empty(), results: Seq::empty() }
    }

    /// The state after a work package is enqueued.
    pub open spec fn push_work(self, work: RemoteWorkerWorkPackage<I>) -> Self {
        QueueState { work: self.work.push(work), results: self.results }
    }

    /// The state after the oldest work package, if any, is dequeued.
    pub open spec fn pop_work(self) -> Self {
        if self.work.len() == 0 {
            self
        } else {
            QueueState { work: self.work.drop_first(), results: self.results }
        }
    }

    /// The work package that a dequeue hands out: the oldest one, if any.
    pub open spec fn front_work(self) -> Option<RemoteWorkerWorkPackage<I>> {
        if self.work.len() == 0 {
            None
        } else {
            Some(self.work[0])
        }
    }

    /// The state after a result is enqueued.
    pub open spec fn push_result(self, res: RemoteWorkerResult<I>) -> Self {
        QueueState { work: self.work, results: self.results.push(res) }
    }

    /// The state after the oldest result, if any, is dequeued.
    pub open spec fn pop_result(self) -> Self {
        if self.results.len() == 0 {
            self
        } else {
            QueueState { work: self.work, results: self.results.drop_first() }
        }
    }

    /// The result that a dequeue hands out: the oldest one, if any.
    pub open spec fn front_result(self) -> Option<RemoteWorkerResult<I>> {
        if self.results.len() == 0 {
            None
        } else {
            Some(self.results[0])
        }
    }
}

/// The state after each of `ws` is enqueued as work, in order.
pub open spec fn push_all_work<I>(q: QueueState<I>, ws: Seq<RemoteWorkerWorkPackage<I>>) -> QueueState<I>
    decreases ws.len(),
{
    if ws.len() == 0 {
        q
    } else {
        push_all_work(q.push_work(ws[0]), ws.drop_first())
    }
}

/// The work packages handed out by `n` successive dequeues, in order.
pub open spec fn drain_work<I>(q: QueueState<I>, n: nat) -> Seq<RemoteWorkerWorkPackage<I>>
    decreases n,
{
    if n == 0 {
        Seq::empty()
    } else {
        match q.front_work() {
            Some(w) => seq![w] + drain_work(q.pop_work(), (n - 1) as nat),
            None => Seq::empty(),
        }
    }
}

/// Enqueuing work onto an empty work queue and dequeuing gives the package
/// back and restores the queue.
pub proof fn law_work_push_onto_empty<I>(q: QueueState<I>, w: RemoteWorkerWorkPackage<I>)
    requires
        q.work.len() == 0,
    ensures
        q.push_work(w).front_work() == Some(w),
        q.push_work(w).pop_work() == q,
{
    assert(q.push_work(w).pop_work().work =~= q.work);
}

/// Enqueuing work behind pending work does not change which package is
/// dequeued next, and commutes with that dequeue.
pub proof fn law_work_push_behind<I>(q: QueueState<I>, w: RemoteWorkerWorkPackage<I>)
    requires
        q.work.len() > 0,
    ensures
        q.push_work(w).front_work() == q.front_work(),
        q.push_work(w).pop_work() == q.pop_work().push_work(w),
{
    assert(q.push_work(w).pop_work().work =~= q.pop_work().push_work(w).work);
}

/// Enqueuing a result onto an empty result queue and dequeuing gives the
/// result back and restores the queue.
pub proof fn law_result_push_onto_empty<I>(q: QueueState<I>, r: RemoteWorkerResult<I>)
    requires
        q.results.len() == 0,
    ensures
        q.push_result(r).front_result() == Some(r),
        q.push_result(r).pop_result() == q,
{
    assert(q.push_result(r).pop_result().results =~= q.results);
}

/// Enqueuing a result behind pending results does not change which result is
/// dequeued next, and commutes with that dequeue.
pub proof fn law_result_push_behind<I>(q: QueueState<I>, r: RemoteWorkerResult<I>)
    requires
        q.results.len() > 0,
    ensures
        q.push_result(r).front_result() == q.front_result(),
        q.push_result(r).pop_result() == q.pop_result().push_result(r),
{
    assert(q.push_result(r).pop_result().results =~= q.pop_result().push_result(r).results);
}

/// The work direction and the result direction are independent: operations
/// on one leave the other as it was, and operations on different directions
/// commute.
pub proof fn law_directions_independent<I>(
    q: QueueState<I>,
    w: RemoteWorkerWorkPackage<I>,
    r: RemoteWorkerResult<I>,
)
    ensures
        q.push_work(w).results == q.results,
        q.pop_work().results == q.results,
        q.push_result(r).work == q.work,
        q.pop_result().work == q.work,
        q.push_work(w).push_result(r) == q.push_result(r).push_work(w),
        q.pop_work().pop_result() == q.pop_result().pop_work(),
        q.push_work(w).front_result() == q.front_result(),
        q.push_result(r).front_work() == q.front_work(),
{
}

/// Work packages leave the queue in the order they entered it: after `ws`
/// is enqueued behind pending packages `q.work`, dequeuing drains `q.work`
/// followed by `ws`.
pub proof fn law_work_drains_in_order<I>(q: QueueState<I>, ws: Seq<RemoteWorkerWorkPackage<I>>)
    ensures
        push_all_work(q, ws).work == q.work + ws,
        drain_work(push_all_work(q, ws), q.work.len() + ws.len()) == q.work + ws,
    decreases ws.len(),
{
    lemma_push_all_work(q, ws);
    lemma_drain_work(push_all_work(q, ws));
}

proof fn lemma_push_all_work<I>(q: QueueState<I>, ws: Seq<RemoteWorkerWorkPackage<I>>)
    ensures
        push_all_work(q, ws).work == q.work + ws,
        push_all_work(q, ws).results == q.results,
    decreases ws.len(),
{
    if ws.len() > 0 {
        lemma_push_all_work(q.push_work(ws[0]), ws.drop_first());
        assert(q.work.push(ws[0]) + ws.drop_first() =~= q.work + ws);
    } else {
        assert(q.work + ws =~= q.work);
    }
}

proof fn lemma_drain_work<I>(q: QueueState<I>)
    ensures
        drain_work(q, q.work.len()) == q.work,
    decreases q.work.len(),
{
    if q.work.len() > 0 {
        lemma_drain_work(q.pop_work());
        assert(seq![q.work[0]] + q.work.drop_first() =~= q.work);
    } else {
        assert(drain_work(q, 0) =~= q.work);
    }
}

/// An in-memory queue of work packages and results for the in-process
/// remote worker: both directions are first in, first out.
#[derive(Debug)]
pub struct InProcessRemoteWorkerQueue<I> {
    work: VecDeque<RemoteWorkerWorkPackage<I>>,
    results: VecDeque<RemoteWorkerResult<I>>,
}

impl<I> View for InProcessRemoteWorkerQueue<I> {
    type V = QueueState<I>;

    closed spec fn view(&self) -> QueueState<I> {
        QueueState { work: self.work@, results: self.results@ }
    }
}

impl<I> InProcessRemoteWorkerQueue<I> {
    /// Create an empty in-process queue.
    pub fn new() -> (q: Self)
        ensures
            q@ == QueueState::<I>::empty(),
    {
        InProcessRemoteWorkerQueue { work: VecDeque::new(), results: VecDeque::new() }
    }

    /// Enqueue a new work package.
    pub fn push_work(&mut self, work: RemoteWorkerWorkPackage<I>)
        ensures
            final(self)@ == old(self)@.push_work(work),
    {
        self.work.push_back(work);
    }

    /// Pop one work package, if any.
    pub fn pop_work(&mut self) -> (r: Option<RemoteWorkerWorkPackage<I>>)
        ensures
            r == old(self)@.front_work(),
            final(self)@ == old(self)@.pop_work(),
    {
        self.work.pop_front()
    }

    /// Enqueue a worker result.
    pub fn push_result(&mut self, res: RemoteWorkerResult<I>)
        ensures
            final(self)@ == old(self)@.push_result(res),
    {
        self.results.push_back(res);
    }

    /// Pop one worker result, if any.
    pub fn pop_result(&mut self) -> (r: Option<RemoteWorkerResult<I>>)
        ensures
            r == old(self)@.front_result(),
            final(self)@ == old(self)@.pop_result(),
    {
        self.results.pop_front()
    }
}

} // verus!
