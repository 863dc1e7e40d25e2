use remote_worker::queue::{
    DiffExitKind, ExitKind, InProcessRemoteWorkerQueue, RemoteWorkerResult, RemoteWorkerWorkPackage,
};
use remote_worker::stages::{
    CollectorPhase, CollectorStep, MutationResult, RemoteWorkerCollectorStage,
    RemoteWorkerLauncherStage, RemoteWorkerMutationalLauncherStage,
    REMOTE_WORKER_COLLECTOR_STAGE_NAME, REMOTE_WORKER_LAUNCHER_STAGE_NAME,
    REMOTE_WORKER_MUTATIONAL_LAUNCHER_STAGE_NAME,
};

#[derive(Debug, Clone, PartialEq)]
struct NopInput {}

/// Runs one collector `perform`, executing every package with `exec` and
/// counting the evaluated results for which `is_solution` holds.
fn run_collector<I: Clone>(
    collector: &mut RemoteWorkerCollectorStage<I>,
    queue: &mut InProcessRemoteWorkerQueue<I>,
    exec: impl Fn(&I) -> ExitKind,
    is_solution: impl Fn(&RemoteWorkerResult<I>) -> bool,
) -> (usize, usize) {
    let mut executed = 0;
    let mut solutions = 0;
    collector.begin_perform();
    loop {
        match collector.next_step(queue) {
            CollectorStep::Execute(work) => {
                executed += 1;
                let exit_kind = exec(&work.input);
                collector.report_execution(queue, work.input, exit_kind, Vec::new());
            }
            CollectorStep::Evaluate(res) => {
                if is_solution(&res) {
                    solutions += 1;
                }
            }
            CollectorStep::Done => break,
        }
    }
    (executed, solutions)
}

// Basic correctness: enqueue input, execute it, integrate as a solution on crash.
#[test]
fn inprocess_remote_worker_happy_path() {
    let mut queue = InProcessRemoteWorkerQueue::<NopInput>::new();
    let launcher = RemoteWorkerLauncherStage::new(1);
    let mut collector = RemoteWorkerCollectorStage::new(1);

    // Enqueue work for the current input.
    launcher.perform(&mut queue, &NopInput {});

    // Dequeue work, "run" it (the executor always crashes), integrate results.
    let (_, solutions) = run_collector(
        &mut collector,
        &mut queue,
        |_| ExitKind::Crash,
        |r| r.exit_kind == ExitKind::Crash,
    );
    assert_eq!(solutions, 1);
}

#[test]
fn queue_is_fifo_in_both_directions() {
    let mut q = InProcessRemoteWorkerQueue::<u32>::new();
    assert!(q.pop_work().is_none());
    assert!(q.pop_result().is_none());
    q.push_work(RemoteWorkerWorkPackage { input: 1 });
    q.push_work(RemoteWorkerWorkPackage { input: 2 });
    q.push_result(RemoteWorkerResult { input: 7, exit_kind: ExitKind::Timeout, observers_buf: vec![9] });
    q.push_work(RemoteWorkerWorkPackage { input: 3 });
    assert_eq!(q.pop_work().unwrap().input, 1);
    let r = q.pop_result().unwrap();
    assert_eq!(r.input, 7);
    assert_eq!(r.exit_kind, ExitKind::Timeout);
    assert_eq!(r.observers_buf, vec![9]);
    assert!(q.pop_result().is_none());
    assert_eq!(q.pop_work().unwrap().input, 2);
    assert_eq!(q.pop_work().unwrap().input, 3);
    assert!(q.pop_work().is_none());
}

#[test]
fn push_then_pop_on_empty_gives_package_back() {
    let mut q = InProcessRemoteWorkerQueue::<String>::new();
    q.push_work(RemoteWorkerWorkPackage { input: "abc".to_string() });
    assert_eq!(q.pop_work().unwrap().input, "abc");
    assert!(q.pop_work().is_none());
}

#[test]
fn launcher_clamps_jobs_and_enqueues_clones() {
    let l0 = RemoteWorkerLauncherStage::<Vec<u8>>::new(0);
    assert_eq!(l0.jobs_per_input(), 1);
    assert_eq!(l0.name(), REMOTE_WORKER_LAUNCHER_STAGE_NAME);
    assert_eq!(l0.name(), "remote_worker_launcher_inprocess");
    let l3 = RemoteWorkerLauncherStage::<Vec<u8>>::new(3);
    assert_eq!(l3.jobs_per_input(), 3);
    let mut q = InProcessRemoteWorkerQueue::new();
    q.push_work(RemoteWorkerWorkPackage { input: vec![0u8] });
    l3.perform(&mut q, &vec![1u8, 2]);
    assert_eq!(q.pop_work().unwrap().input, vec![0u8]);
    for _ in 0..3 {
        assert_eq!(q.pop_work().unwrap().input, vec![1u8, 2]);
    }
    assert!(q.pop_work().is_none());
    assert!(q.pop_result().is_none());
}

#[test]
fn mutational_launcher_enqueues_only_mutated_inputs() {
    let stage = RemoteWorkerMutationalLauncherStage::<Vec<u8>, u8>::new(5, 0);
    assert_eq!(stage.jobs_per_input(), 1);
    assert_eq!(stage.name(), REMOTE_WORKER_MUTATIONAL_LAUNCHER_STAGE_NAME);
    let mut stage = RemoteWorkerMutationalLauncherStage::<Vec<u8>, u8>::new(5, 4);
    assert_eq!(*stage.mutator(), 5);
    *stage.mutator_mut() = 6;
    assert_eq!(*stage.mutator(), 6);
    let mut q = InProcessRemoteWorkerQueue::new();
    let base = vec![10u8];
    // Before a run starts no job is handed out.
    assert!(stage.next_job(&base).is_none());
    stage.begin_perform();
    let mut handed = 0;
    while let Some(mut input) = stage.next_job(&base) {
        assert_eq!(input, base);
        handed += 1;
        // Every second job is "mutated".
        let outcome = if handed % 2 == 0 {
            input.push(handed as u8);
            MutationResult::Mutated
        } else {
            MutationResult::Skipped
        };
        stage.report_mutation(&mut q, input, outcome);
    }
    assert_eq!(handed, 4);
    assert_eq!(q.pop_work().unwrap().input, vec![10u8, 2]);
    assert_eq!(q.pop_work().unwrap().input, vec![10u8, 4]);
    assert!(q.pop_work().is_none());
}

#[test]
fn collector_respects_its_limit_and_fifo_order() {
    let mut q = InProcessRemoteWorkerQueue::new();
    for i in 0..5u32 {
        q.push_work(RemoteWorkerWorkPackage { input: i });
    }
    let c = RemoteWorkerCollectorStage::<u32>::new(0);
    assert_eq!(c.max_work_per_perform(), 1);
    assert_eq!(c.name(), REMOTE_WORKER_COLLECTOR_STAGE_NAME);
    let mut c = RemoteWorkerCollectorStage::new(2);
    assert_eq!(c.phase(), CollectorPhase::Finished);
    assert!(matches!(c.next_step(&mut q), CollectorStep::Done));

    c.begin_perform();
    let mut order = Vec::new();
    loop {
        match c.next_step(&mut q) {
            CollectorStep::Execute(w) => {
                assert_eq!(c.phase(), CollectorPhase::Executing);
                order.push(("exec", w.input));
                let kind = if w.input == 0 { ExitKind::Crash } else { ExitKind::Normal };
                c.report_execution(&mut q, w.input, kind, vec![w.input as u8]);
            }
            CollectorStep::Evaluate(r) => {
                assert_eq!(r.observers_buf, vec![r.input as u8]);
                order.push(("eval", r.input));
            }
            CollectorStep::Done => break,
        }
    }
    assert_eq!(order, vec![("exec", 0), ("exec", 1), ("eval", 0), ("eval", 1)]);
    assert_eq!(c.phase(), CollectorPhase::Finished);

    // The next run picks up where the queue stands.
    let (executed, crashes) = run_collector(&mut c, &mut q, |_| ExitKind::Oom, |r| r.exit_kind == ExitKind::Oom);
    assert_eq!((executed, crashes), (2, 2));
    let (executed, crashes) = run_collector(&mut c, &mut q, |_| ExitKind::Oom, |r| r.exit_kind == ExitKind::Oom);
    assert_eq!((executed, crashes), (1, 1));
    assert!(q.pop_work().is_none());
    assert!(q.pop_result().is_none());
}

#[test]
fn collector_evaluates_pending_results_beyond_this_runs_work() {
    let mut q = InProcessRemoteWorkerQueue::new();
    for i in 0..3u32 {
        q.push_result(RemoteWorkerResult { input: i, exit_kind: ExitKind::Normal, observers_buf: vec![] });
    }
    let mut c = RemoteWorkerCollectorStage::new(2);
    let (executed, evaluated) = run_collector(&mut c, &mut q, |_| ExitKind::Normal, |_| true);
    assert_eq!((executed, evaluated), (0, 2));
    assert_eq!(q.pop_result().unwrap().input, 2);
}

#[test]
fn messages_clone_field_by_field() {
    let w = RemoteWorkerWorkPackage { input: vec![1u8, 2] };
    assert_eq!(w.clone().input, vec![1u8, 2]);
    let r = RemoteWorkerResult { input: 4u8, exit_kind: ExitKind::Oom, observers_buf: vec![3] };
    let c = r.clone();
    assert_eq!((c.input, c.exit_kind, c.observers_buf), (4, ExitKind::Oom, vec![3]));
}

#[test]
fn stages_clone_their_settings() {
    let l = RemoteWorkerLauncherStage::<u8>::new(3);
    assert_eq!(l.clone().jobs_per_input(), 3);
    let m = RemoteWorkerMutationalLauncherStage::<u8, String>::new("m".to_string(), 2);
    let mc = m.clone();
    assert_eq!(mc.jobs_per_input(), 2);
    assert_eq!(mc.mutator(), "m");
    let mut c = RemoteWorkerCollectorStage::<u8>::new(4);
    c.begin_perform();
    let cc = c.clone();
    assert_eq!(cc.max_work_per_perform(), 4);
    assert_eq!(cc.phase(), CollectorPhase::Working);
}

#[test]
fn differential_exit_kinds() {
    let k = ExitKind::Diff { primary: DiffExitKind::Normal, secondary: DiffExitKind::Crash };
    let mut q = InProcessRemoteWorkerQueue::new();
    q.push_result(RemoteWorkerResult { input: 1u8, exit_kind: k, observers_buf: vec![] });
    assert_eq!(q.pop_result().unwrap().exit_kind, k);
    assert_ne!(k, ExitKind::Crash);
}
