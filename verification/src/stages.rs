//! The launcher stages, which fill the work queue, and the collector stage,
//! which executes queued work and integrates the results.
//!
//! Each stage keeps the decisions of one `perform` run; the caller carries out
//! what a stage asks for (executing the target, mutating an input, evaluating a
//! result) and reports back.

use core::marker::PhantomData;
use vstd::prelude::*;
use crate::queue::{
    ExitKind, InProcessRemoteWorkerQueue, QueueState, RemoteWorkerResult, RemoteWorkerWorkPackage,
};

verus! {

/// Default name for `RemoteWorkerLauncherStage`.
pub const REMOTE_WORKER_LAUNCHER_STAGE_NAME: &'static str = "remote_worker_launcher_inprocess";

/// Default name for `RemoteWorkerMutationalLauncherStage`.
pub const REMOTE_WORKER_MUTATIONAL_LAUNCHER_STAGE_NAME: &'static str =
    "remote_worker_mutational_launcher_inprocess";

/// Default name for `RemoteWorkerCollectorStage`.
pub const REMOTE_WORKER_COLLECTOR_STAGE_NAME: &'static str = "remote_worker_collector_inprocess";

/// `n`, or 1 where `n` is 0.
pub open spec fn at_least_one(n: usize) -> nat {
    if n == 0 {
        1
    } else {
        n as nat
    }
}

/// Whether `after` is `before` with one clone of `input` per added package.
pub open spec fn appends_clones<I: Clone>(
    before: Seq<RemoteWorkerWorkPackage<I>>,
    after: Seq<RemoteWorkerWorkPackage<I>>,
    input: I,
    count: nat,
) -> bool {
    &&& after.len() == before.len() + count
    &&& forall|k: int| 0 <= k < before.len() ==> #[trigger] after[k] == before[k]
    &&& forall|k: int| before.len() <= k < after.len() ==> cloned(input, #[trigger] after[k].input)
}

/// Stage that enqueues work packages for the remote worker.
#[derive(Debug)]
pub struct RemoteWorkerLauncherStage<I> {
    jobs_per_input: usize,
    phantom: PhantomData<I>,
}

impl<I> Clone for RemoteWorkerLauncherStage<I> {
    fn clone(&self) -> (c: Self)
        ensures
            c.jobs() == self.jobs(),
    {
        proof {
            use_type_invariant(self);
        }
        RemoteWorkerLauncherStage { jobs_per_input: self.jobs_per_input, phantom: PhantomData }
    }
}

impl<I> RemoteWorkerLauncherStage<I> {
    #[verifier::type_invariant]
    spec fn inv(self) -> bool {
        self.jobs_per_input >= 1
    }

    /// The number of packages enqueued per input.
    pub closed spec fn jobs(&self) -> nat {
        self.jobs_per_input as nat
    }

    /// Create a launcher stage; a request for no jobs is raised to one.
    pub fn new(jobs_per_input: usize) -> (s: Self)
        ensures
            s.jobs() == at_least_one(jobs_per_input),
    {
        let jobs = if jobs_per_input == 0 { 1 } else { jobs_per_input };
        RemoteWorkerLauncherStage {
            jobs_per_input: jobs,
            phantom: PhantomData,
        }
    }

    /// The stage's name.
    pub fn name(&self) -> (r: &str)
        ensures
            r@ == REMOTE_WORKER_LAUNCHER_STAGE_NAME@,
    {
        REMOTE_WORKER_LAUNCHER_STAGE_NAME
    }

    /// The number of packages enqueued per input; never 0.
    pub fn jobs_per_input(&self) -> (n: usize)
        ensures
            n == self.jobs(),
            n >= 1,
    {
        proof {
            use_type_invariant(self);
        }
        self.jobs_per_input
    }

    /// Enqueue one clone of the current input per job, leaving the results
    /// untouched.
    pub fn perform(&self, queue: &mut InProcessRemoteWorkerQueue<I>, input: &I)
        where I: Clone,
        ensures
            final(queue)@.results == old(queue)@.results,
            appends_clones(old(queue)@.work, final(queue)@.work, *input, self.jobs()),
    {
        let jobs = self.jobs_per_input;
        let mut k: usize = 0;
        while k < jobs
            invariant
                k <= jobs,
                jobs == self.jobs(),
                queue@.results == old(queue)@.results,
                appends_clones(old(queue)@.work, queue@.work, *input, k as nat),
            decreases jobs - k,
        {
            let copy = input.clone();
            queue.push_work(RemoteWorkerWorkPackage { input: copy });
            k = k + 1;
        }
    }
}


/// Whether a mutation changed the input.
#[derive(Debug, Clone, Copy, PartialEq, Eq, Structural)]
pub enum MutationResult {
    /// The input was mutated.
    Mutated,
    /// The mutator left the input as it was.
    Skipped,
}

/// Stage that enqueues mutated work packages for the remote worker.
///
/// One `perform` run is: `begin_perform`, then `next_job` until it returns
/// `None`; each clone it hands out is mutated by the caller, and the outcome
/// is handed back with `report_mutation`.
#[derive(Debug)]
pub struct RemoteWorkerMutationalLauncherStage<I, M> {
    mutator: M,
    jobs_per_input: usize,
    jobs_left: usize,
    phantom: PhantomData<I>,
}

impl<I, M: Clone> Clone for RemoteWorkerMutationalLauncherStage<I, M> {
    fn clone(&self) -> (c: Self)
        ensures
            c.jobs() == self.jobs(),
            c.jobs_left() == self.jobs_left(),
            cloned(self.mutator_value(), c.mutator_value()),
            self.wf() ==> c.wf(),
    {
        RemoteWorkerMutationalLauncherStage {
            mutator: self.mutator.clone(),
            jobs_per_input: self.jobs_per_input,
            jobs_left: self.jobs_left,
            phantom: PhantomData,
        }
    }
}

impl<I, M> RemoteWorkerMutationalLauncherStage<I, M> {
    /// The stage's invariant: at least one job per input, and no more jobs
    /// left in a run than a run has.
    pub closed spec fn wf(&self) -> bool {
        &&& self.jobs_per_input >= 1
        &&& self.jobs_left <= self.jobs_per_input
    }

    /// The number of mutated jobs tried per input.
    pub closed spec fn jobs(&self) -> nat {
        self.jobs_per_input as nat
    }

    /// The number of jobs still to hand out in the current run.
    pub closed spec fn jobs_left(&self) -> nat {
        self.jobs_left as nat
    }

    /// The mutator the caller applies to each job.
    pub closed spec fn mutator_value(&self) -> M {
        self.mutator
    }

    /// Create a mutational launcher stage; a request for no jobs is raised
    /// to one. No run is in progress.
    pub fn new(mutator: M, jobs_per_input: usize) -> (s: Self)
        ensures
            s.wf(),
            s.jobs() == at_least_one(jobs_per_input),
            s.jobs_left() == 0,
            s.mutator_value() == mutator,
    {
        let jobs = if jobs_per_input == 0 { 1 } else { jobs_per_input };
        RemoteWorkerMutationalLauncherStage {
            mutator,
            jobs_per_input: jobs,
            jobs_left: 0,
            phantom: PhantomData,
        }
    }

    /// The stage's name.
    pub fn name(&self) -> (r: &str)
        ensures
            r@ == REMOTE_WORKER_MUTATIONAL_LAUNCHER_STAGE_NAME@,
    {
        REMOTE_WORKER_MUTATIONAL_LAUNCHER_STAGE_NAME
    }

    /// The number of mutated jobs tried per input; never 0.
    pub fn jobs_per_input(&self) -> (n: usize)
        requires
            self.wf(),
        ensures
            n == self.jobs(),
            n >= 1,
    {
        self.jobs_per_input
    }

    /// The mutator.
    pub fn mutator(&self) -> (m: &M)
        ensures
            *m == self.mutator_value(),
    {
        &self.mutator
    }

    /// The mutator, for the caller to apply to a job.
    pub fn mutator_mut(&mut self) -> (m: &mut M)
        ensures
            *m == old(self).mutator_value(),
            old(self).wf() ==> final(self).wf(),
            final(self).mutator_value() == *final(m),
            final(self).jobs() == old(self).jobs(),
            final(self).jobs_left() == old(self).jobs_left(),
    {
        &mut self.mutator
    }

    /// Start a run: every job of the current input is still to be handed out.
    pub fn begin_perform(&mut self)
        requires
            old(self).wf(),
        ensures
            final(self).wf(),
            final(self).jobs() == old(self).jobs(),
            final(self).jobs_left() == old(self).jobs(),
            final(self).mutator_value() == old(self).mutator_value(),
    {
        self.jobs_left = self.jobs_per_input;
    }

    /// Hand out a fresh clone of the current input for the next job, or
    /// `None` once every job of the run has been handed out.
    pub fn next_job(&mut self, base: &I) -> (r: Option<I>)
        where I: Clone,
        requires
            old(self).wf(),
        ensures
            final(self).wf(),
            final(self).jobs() == old(self).jobs(),
            final(self).mutator_value() == old(self).mutator_value(),
            old(self).jobs_left() == 0 ==> r is None && final(self).jobs_left() == 0,
            old(self).jobs_left() > 0 ==> {
                &&& r is Some
                &&& cloned(*base, r->0)
                &&& final(self).jobs_left() == old(self).jobs_left() - 1
            },
    {
        if self.jobs_left == 0 {
            None
        } else {
            self.jobs_left = self.jobs_left - 1;
            Some(base.clone())
        }
    }

    /// Hand back a job's input after mutation: it is enqueued exactly when
    /// the mutator changed it.
    pub fn report_mutation(
        &self,
        queue: &mut InProcessRemoteWorkerQueue<I>,
        input: I,
        outcome: MutationResult,
    )
        ensures
            final(queue)@ == (match outcome {
                MutationResult::Mutated => old(queue)@.push_work(RemoteWorkerWorkPackage { input }),
                MutationResult::Skipped => old(queue)@,
            }),
    {
        match outcome {
            MutationResult::Mutated => queue.push_work(RemoteWorkerWorkPackage { input }),
            MutationResult::Skipped => {},
        }
    }
}


/// Where a collector run stands.
#[derive(Debug, Clone, Copy, PartialEq, Eq, Structural)]
pub enum CollectorPhase {
    /// Taking work packages from the queue to execute.
    Working,
    /// A work package was handed out; its execution must be reported.
    Executing,
    /// Taking results from the queue to evaluate.
    Collecting,
    /// The run is over (or none was started).
    Finished,
}

/// The abstract state of a collector run: its phase and how many packages
/// it has executed and results it has evaluated so far.
pub struct CollectorState {
    pub phase: CollectorPhase,
    pub executed: nat,
    pub evaluated: nat,
}

/// What the collector asks of its caller next.
#[derive(Debug)]
pub enum CollectorStep<I> {
    /// Execute the target on this package's input, then report with
    /// `report_execution`.
    Execute(RemoteWorkerWorkPackage<I>),
    /// Check and evaluate this result.
    Evaluate(RemoteWorkerResult<I>),
    /// The run is over.
    Done,
}

/// The collecting part of a run: take the oldest result while fewer than
/// `max` results were evaluated and one is pending; otherwise finish.
pub open spec fn collect_next<I>(max: nat, st: CollectorState, q: QueueState<I>) -> (
    CollectorState,
    QueueState<I>,
    CollectorStep<I>,
) {
    if st.evaluated < max && q.results.len() > 0 {
        (
            CollectorState {
                phase: CollectorPhase::Collecting,
                executed: st.executed,
                evaluated: st.evaluated + 1,
            },
            q.pop_result(),
            CollectorStep::Evaluate(q.results[0]),
        )
    } else {
        (
            CollectorState {
                phase: CollectorPhase::Finished,
                executed: st.executed,
                evaluated: st.evaluated,
            },
            q,
            CollectorStep::Done,
        )
    }
}

/// One step of a collector run with limit `max`: first the worker part,
/// which takes the oldest package while fewer than `max` were executed and one
/// is pending; then the collecting part.
pub open spec fn collector_next<I>(max: nat, st: CollectorState, q: QueueState<I>) -> (
    CollectorState,
    QueueState<I>,
    CollectorStep<I>,
) {
    match st.phase {
        CollectorPhase::Working => {
            if st.executed < max && q.work.len() > 0 {
                (
                    CollectorState {
                        phase: CollectorPhase::Executing,
                        executed: st.executed + 1,
                        evaluated: st.evaluated,
                    },
                    q.pop_work(),
                    CollectorStep::Execute(q.work[0]),
                )
            } else {
                collect_next(max, st, q)
            }
        },
        CollectorPhase::Collecting => collect_next(max, st, q),
        _ => (st, q, CollectorStep::Done),
    }
}

/// The effect of reporting an execution: the result is enqueued and the
/// worker part goes on.
pub open spec fn report_next<I>(
    st: CollectorState,
    q: QueueState<I>,
    input: I,
    exit_kind: ExitKind,
    observers_buf: Vec<u8>,
) -> (CollectorState, QueueState<I>) {
    (
        CollectorState {
            phase: CollectorPhase::Working,
            executed: st.executed,
            evaluated: st.evaluated,
        },
        q.push_result(RemoteWorkerResult { input, exit_kind, observers_buf }),
    )
}

/// Stage that dequeues work packages, has them executed, and hands the
/// results back for integration into the main node.
///
/// One `perform` run is: `begin_perform`, then `next_step` until it returns
/// `Done`; after each `Execute` the caller runs the target and reports with
/// `report_execution` before the next step.
#[derive(Debug)]
pub struct RemoteWorkerCollectorStage<I> {
    max_work_per_perform: usize,
    phase: CollectorPhase,
    executed: usize,
    evaluated: usize,
    phantom: PhantomData<I>,
}

impl<I> Clone for RemoteWorkerCollectorStage<I> {
    fn clone(&self) -> (c: Self)
        ensures
            c.max_work() == self.max_work(),
            c.state() == self.state(),
    {
        proof {
            use_type_invariant(self);
        }
        RemoteWorkerCollectorStage {
            max_work_per_perform: self.max_work_per_perform,
            phase: self.phase,
            executed: self.executed,
            evaluated: self.evaluated,
            phantom: PhantomData,
        }
    }
}

impl<I> RemoteWorkerCollectorStage<I> {
    #[verifier::type_invariant]
    spec fn inv(self) -> bool {
        &&& self.max_work_per_perform >= 1
        &&& self.executed <= self.max_work_per_perform
        &&& self.evaluated <= self.max_work_per_perform
    }

    /// The most packages executed, and the most results evaluated, per run.
    pub closed spec fn max_work(&self) -> nat {
        self.max_work_per_perform as nat
    }

    /// The state of the current run.
    pub closed spec fn state(&self) -> CollectorState {
        CollectorState {
            phase: self.phase,
            executed: self.executed as nat,
            evaluated: self.evaluated as nat,
        }
    }

    /// Create a collector stage; a limit of 0 is raised to one. No run is in
    /// progress.
    pub fn new(max_work_per_perform: usize) -> (s: Self)
        ensures
            s.max_work() == at_least_one(max_work_per_perform),
            s.state() == (CollectorState {
                phase: CollectorPhase::Finished,
                executed: 0,
                evaluated: 0,
            }),
    {
        let max = if max_work_per_perform == 0 { 1 } else { max_work_per_perform };
        RemoteWorkerCollectorStage {
            max_work_per_perform: max,
            phase: CollectorPhase::Finished,
            executed: 0,
            evaluated: 0,
            phantom: PhantomData,
        }
    }

    /// The stage's name.
    pub fn name(&self) -> (r: &str)
        ensures
            r@ == REMOTE_WORKER_COLLECTOR_STAGE_NAME@,
    {
        REMOTE_WORKER_COLLECTOR_STAGE_NAME
    }

    /// The most packages executed, and the most results evaluated, per run;
    /// never 0.
    pub fn max_work_per_perform(&self) -> (n: usize)
        ensures
            n == self.max_work(),
            n >= 1,
    {
        proof {
            use_type_invariant(self);
        }
        self.max_work_per_perform
    }

    /// The phase of the current run.
    pub fn phase(&self) -> (p: CollectorPhase)
        ensures
            p == self.state().phase,
    {
        self.phase
    }

    /// Start a run.
    pub fn begin_perform(&mut self)
        ensures
            final(self).max_work() == old(self).max_work(),
            final(self).state() == (CollectorState {
                phase: CollectorPhase::Working,
                executed: 0,
                evaluated: 0,
            }),
    {
        proof {
            use_type_invariant(&*self);
        }
        self.phase = CollectorPhase::Working;
        self.executed = 0;
        self.evaluated = 0;
    }

    /// Take the collecting step of a run.
    fn collect_step(&mut self, queue: &mut InProcessRemoteWorkerQueue<I>) -> (r: CollectorStep<I>)
        ensures
            final(self).max_work() == old(self).max_work(),
            (final(self).state(), final(queue)@, r) == collect_next(
                old(self).max_work(),
                old(self).state(),
                old(queue)@,
            ),
    {
        proof {
            use_type_invariant(&*self);
        }
        if self.evaluated < self.max_work_per_perform {
            match queue.pop_result() {
                Some(res) => {
                    self.phase = CollectorPhase::Collecting;
                    self.evaluated = self.evaluated + 1;
                    CollectorStep::Evaluate(res)
                },
                None => {
                    self.phase = CollectorPhase::Finished;
                    CollectorStep::Done
                },
            }
        } else {
            self.phase = CollectorPhase::Finished;
            CollectorStep::Done
        }
    }

    /// The next step of the run: a package to execute, a result to evaluate,
    /// or the end of the run.
    pub fn next_step(&mut self, queue: &mut InProcessRemoteWorkerQueue<I>) -> (r: CollectorStep<I>)
        requires
            old(self).state().phase != CollectorPhase::Executing,
        ensures
            final(self).max_work() == old(self).max_work(),
            (final(self).state(), final(queue)@, r) == collector_next(
                old(self).max_work(),
                old(self).state(),
                old(queue)@,
            ),
            final(self).state().executed <= final(self).max_work(),
            final(self).state().evaluated <= final(self).max_work(),
    {
        proof {
            use_type_invariant(&*self);
        }
        let r = match self.phase {
            CollectorPhase::Working => {
                if self.executed < self.max_work_per_perform {
                    match queue.pop_work() {
                        Some(work) => {
                            self.phase = CollectorPhase::Executing;
                            self.executed = self.executed + 1;
                            CollectorStep::Execute(work)
                        },
                        None => self.collect_step(queue),
                    }
                } else {
                    self.collect_step(queue)
                }
            },
            CollectorPhase::Collecting => self.collect_step(queue),
            _ => CollectorStep::Done,
        };
        proof {
            use_type_invariant(&*self);
        }
        r
    }

    /// Report the execution of the package handed out last: its result is
    /// enqueued, and the worker part goes on.
    pub fn report_execution(
        &mut self,
        queue: &mut InProcessRemoteWorkerQueue<I>,
        input: I,
        exit_kind: ExitKind,
        observers_buf: Vec<u8>,
    )
        requires
            old(self).state().phase == CollectorPhase::Executing,
        ensures
            final(self).max_work() == old(self).max_work(),
            (final(self).state(), final(queue)@) == report_next(
                old(self).state(),
                old(queue)@,
                input,
                exit_kind,
                observers_buf,
            ),
    {
        proof {
            use_type_invariant(&*self);
        }
        queue.push_result(RemoteWorkerResult { input, exit_kind, observers_buf });
        self.phase = CollectorPhase::Working;
    }
}

/// The steps of a collector run in which the caller reports each execution
/// with the next of `outcomes` (exit kind and observers), until the run ends,
/// an execution goes unreported for want of outcomes, or `fuel` steps were
/// taken; and the queue after them.
pub open spec fn simulate_run<I>(
    max: nat,
    st: CollectorState,
    q: QueueState<I>,
    outcomes: Seq<(ExitKind, Vec<u8>)>,
    fuel: nat,
) -> (Seq<CollectorStep<I>>, QueueState<I>)
    decreases fuel,
{
    if fuel == 0 {
        (Seq::empty(), q)
    } else {
        let (st1, q1, step) = collector_next(max, st, q);
        match step {
            CollectorStep::Execute(w) => {
                if outcomes.len() == 0 {
                    (seq![step], q1)
                } else {
                    let (st2, q2) = report_next(st1, q1, w.input, outcomes[0].0, outcomes[0].1);
                    let rest = simulate_run(max, st2, q2, outcomes.drop_first(), (fuel - 1) as nat);
                    (seq![step] + rest.0, rest.1)
                }
            },
            CollectorStep::Evaluate(_) => {
                let rest = simulate_run(max, st1, q1, outcomes, (fuel - 1) as nat);
                (seq![step] + rest.0, rest.1)
            },
            CollectorStep::Done => (seq![step], q1),
        }
    }
}

/// The result a package yields with the given outcome.
pub open spec fn result_of<I>(w: RemoteWorkerWorkPackage<I>, outcome: (ExitKind, Vec<u8>)) -> RemoteWorkerResult<I> {
    RemoteWorkerResult { input: w.input, exit_kind: outcome.0, observers_buf: outcome.1 }
}

/// One `Execute` step per package, in order.
pub open spec fn execute_steps<I>(ws: Seq<RemoteWorkerWorkPackage<I>>) -> Seq<CollectorStep<I>> {
    Seq::new(ws.len(), |k: int| CollectorStep::Execute(ws[k]))
}

/// One `Evaluate` step per result, in order.
pub open spec fn evaluate_steps<I>(rs: Seq<RemoteWorkerResult<I>>) -> Seq<CollectorStep<I>> {
    Seq::new(rs.len(), |k: int| CollectorStep::Evaluate(rs[k]))
}

/// The results the packages yield with the outcomes, pairwise.
pub open spec fn results_of<I>(
    ws: Seq<RemoteWorkerWorkPackage<I>>,
    outcomes: Seq<(ExitKind, Vec<u8>)>,
) -> Seq<RemoteWorkerResult<I>> {
    Seq::new(ws.len(), |k: int| result_of(ws[k], outcomes[k]))
}

/// The smaller of `a` and `b`.
pub open spec fn min_nat(a: nat, b: nat) -> nat {
    if a <= b {
        a
    } else {
        b
    }
}

proof fn lemma_collecting_drains<I>(
    max: nat,
    st: CollectorState,
    q: QueueState<I>,
    outcomes: Seq<(ExitKind, Vec<u8>)>,
    fuel: nat,
)
    requires
        st.phase == CollectorPhase::Collecting || (st.phase == CollectorPhase::Working && !(
        st.executed < max && q.work.len() > 0)),
        st.evaluated <= max,
        fuel > min_nat(q.results.len(), (max - st.evaluated) as nat),
    ensures
        ({
            let e = min_nat(q.results.len(), (max - st.evaluated) as nat) as int;
            simulate_run(max, st, q, outcomes, fuel) == (
                evaluate_steps(q.results.take(e)) + seq![CollectorStep::<I>::Done],
                QueueState { work: q.work, results: q.results.skip(e) },
            )
        }),
    decreases q.results.len(),
{
    let e = min_nat(q.results.len(), (max - st.evaluated) as nat) as int;
    let (st1, q1, step) = collector_next(max, st, q);
    if e == 0 {
        assert(evaluate_steps(q.results.take(e)) + seq![CollectorStep::<I>::Done] =~= seq![
            CollectorStep::<I>::Done,
        ]);
        assert(q1 == q);
        assert(q.results.skip(e) =~= q.results);
    } else {
        lemma_collecting_drains(max, st1, q1, outcomes, (fuel - 1) as nat);
        assert(q1.results =~= q.results.drop_first());
        assert(min_nat(q1.results.len(), (max - st1.evaluated) as nat) == e - 1);
        assert(q1.results.take(e - 1) =~= q.results.take(e).drop_first());
        assert(q1.results.skip(e - 1) =~= q.results.skip(e));
        assert(evaluate_steps(q.results.take(e)) + seq![CollectorStep::<I>::Done] =~= seq![step] + (
        evaluate_steps(q1.results.take(e - 1)) + seq![CollectorStep::<I>::Done]));
    }
}

proof fn lemma_working_executes<I>(
    max: nat,
    st: CollectorState,
    q: QueueState<I>,
    outcomes: Seq<(ExitKind, Vec<u8>)>,
    fuel: nat,
)
    requires
        st.phase == CollectorPhase::Working,
        st.evaluated == 0,
        st.executed <= max,
        outcomes.len() >= min_nat(q.work.len(), (max - st.executed) as nat),
        ({
            let k = min_nat(q.work.len(), (max - st.executed) as nat);
            let all = q.results + results_of(q.work.take(k as int), outcomes);
            fuel > k + min_nat(all.len(), max)
        }),
    ensures
        ({
            let k = min_nat(q.work.len(), (max - st.executed) as nat) as int;
            let all = q.results + results_of(q.work.take(k), outcomes);
            let e = min_nat(all.len(), max) as int;
            simulate_run(max, st, q, outcomes, fuel) == (
                execute_steps(q.work.take(k)) + evaluate_steps(all.take(e)) + seq![
                    CollectorStep::<I>::Done,
                ],
                QueueState { work: q.work.skip(k), results: all.skip(e) },
            )
        }),
    decreases q.work.len(),
{
    let k = min_nat(q.work.len(), (max - st.executed) as nat) as int;
    let all = q.results + results_of(q.work.take(k), outcomes);
    let e = min_nat(all.len(), max) as int;
    if k == 0 {
        lemma_collecting_drains(max, st, q, outcomes, fuel);
        assert(all =~= q.results);
        assert(execute_steps(q.work.take(k)) =~= Seq::<CollectorStep<I>>::empty());
        assert(q.work.skip(k) =~= q.work);
        assert(execute_steps(q.work.take(k)) + evaluate_steps(all.take(e)) + seq![
            CollectorStep::<I>::Done,
        ] =~= evaluate_steps(q.results.take(e)) + seq![CollectorStep::<I>::Done]);
    } else {
        let (st1, q1, step) = collector_next(max, st, q);
        let w = q.work[0];
        assert(step == CollectorStep::Execute(w));
        let (st2, q2) = report_next(st1, q1, w.input, outcomes[0].0, outcomes[0].1);
        assert(q2.work =~= q.work.drop_first());
        assert(min_nat(q2.work.len(), (max - st2.executed) as nat) == k - 1);
        assert(q2.work.take(k - 1) =~= q.work.take(k).drop_first());
        assert(q2.work.skip(k - 1) =~= q.work.skip(k));
        assert(q2.results + results_of(q2.work.take(k - 1), outcomes.drop_first()) =~= all);
        lemma_working_executes(max, st2, q2, outcomes.drop_first(), (fuel - 1) as nat);
        assert(execute_steps(q.work.take(k)) =~= seq![step] + execute_steps(q2.work.take(k - 1)));
        assert(execute_steps(q.work.take(k)) + evaluate_steps(all.take(e)) + seq![
            CollectorStep::<I>::Done,
        ] =~= seq![step] + (execute_steps(q2.work.take(k - 1)) + evaluate_steps(all.take(e))
            + seq![CollectorStep::<I>::Done]));
    }
}

/// Everything launched is executed and integrated, within the run's limit:
/// a collector run with limit `max`, started on a queue that holds packages
/// `ws` and results `rs`, with each execution reported with the next of
/// `outcomes`, executes the first `k` packages in queue order, where `k` is
/// the smaller of `ws.len()` and `max`; then evaluates, oldest first, the
/// pending results followed by those of the executed packages, as many as
/// `max` allows; then ends. The other packages and results stay pending, in
/// order.
pub proof fn law_run_executes_then_evaluates_in_order<I>(
    max: nat,
    ws: Seq<RemoteWorkerWorkPackage<I>>,
    rs: Seq<RemoteWorkerResult<I>>,
    outcomes: Seq<(ExitKind, Vec<u8>)>,
)
    requires
        outcomes.len() >= min_nat(ws.len(), max),
    ensures
        ({
            let k = min_nat(ws.len(), max) as int;
            let all = rs + results_of(ws.take(k), outcomes);
            let e = min_nat(all.len(), max) as int;
            simulate_run(
                max,
                CollectorState { phase: CollectorPhase::Working, executed: 0, evaluated: 0 },
                QueueState { work: ws, results: rs },
                outcomes,
                (k + e + 1) as nat,
            ) == (
                execute_steps(ws.take(k)) + evaluate_steps(all.take(e)) + seq![
                    CollectorStep::<I>::Done,
                ],
                QueueState { work: ws.skip(k), results: all.skip(e) },
            )
        }),
{
    let k = min_nat(ws.len(), max) as int;
    let all = rs + results_of(ws.take(k), outcomes);
    let e = min_nat(all.len(), max) as int;
    lemma_working_executes(
        max,
        CollectorState { phase: CollectorPhase::Working, executed: 0, evaluated: 0 },
        QueueState { work: ws, results: rs },
        outcomes,
        (k + e + 1) as nat,
    );
}

/// A launch then a run: after the launcher enqueues `jobs` clones of an input
/// onto an empty queue, a collector run whose limit is at least `jobs`, with
/// each execution reported, executes exactly those packages in order, then
/// evaluates their results in the same order, and leaves the queue empty.
pub proof fn law_launch_then_collect<I: Clone>(
    max: nat,
    input: I,
    jobs: nat,
    launched: Seq<RemoteWorkerWorkPackage<I>>,
    outcomes: Seq<(ExitKind, Vec<u8>)>,
)
    requires
        appends_clones(Seq::empty(), launched, input, jobs),
        jobs <= max,
        outcomes.len() >= jobs,
    ensures
        simulate_run(
            max,
            CollectorState { phase: CollectorPhase::Working, executed: 0, evaluated: 0 },
            QueueState { work: launched, results: Seq::empty() },
            outcomes,
            2 * jobs + 1,
        ) == (
            execute_steps(launched) + evaluate_steps(results_of(launched, outcomes)) + seq![
                CollectorStep::<I>::Done,
            ],
            QueueState::<I>::empty(),
        ),
        launched.len() == jobs,
        forall|k: int| 0 <= k < jobs ==> cloned(input, #[trigger] launched[k].input),
{
    law_run_executes_then_evaluates_in_order(max, launched, Seq::empty(), outcomes);
    assert(launched.take(jobs as int) =~= launched);
    assert(Seq::<RemoteWorkerResult<I>>::empty() + results_of(launched, outcomes) =~= results_of(
        launched,
        outcomes,
    ));
    let all = results_of(launched, outcomes);
    assert(all.take(jobs as int) =~= all);
    assert(launched.skip(jobs as int) =~= Seq::<RemoteWorkerWorkPackage<I>>::empty());
    assert(all.skip(jobs as int) =~= Seq::<RemoteWorkerResult<I>>::empty());
}

} // verus!
