//! The worker settings of the tar fuzzer: how many in-process workers to
//! simulate, how many jobs to launch per input and how many to collect per
//! run, from the processor count and optional overrides (the values of the
//! `TAR_REMOTE_WORKERS`, `TAR_REMOTE_JOBS_PER_INPUT` and
//! `TAR_REMOTE_COLLECT_BATCH` environment variables, read by the caller).

use vstd::prelude::*;
use crate::text::{chars_of, parse_usize, parse_usize_spec};

verus! {

/// The view of an optional text.
pub open spec fn opt_view(value: Option<&str>) -> Option<Seq<char>> {
    match value {
        Some(s) => Some(s@),
        None => None,
    }
}

/// The override `value` where it is a positive `usize`, else `default`.
pub open spec fn positive_or(value: Option<Seq<char>>, default: usize) -> usize {
    match value {
        Some(v) => match parse_usize_spec(v) {
            Some(n) => if n > 0 {
                n
            } else {
                default
            },
            None => default,
        },
        None => default,
    }
}

/// The override `value` (an environment variable's value, where set) where it
/// parses as a positive `usize`, else `default`.
pub fn parse_usize_env(value: Option<&str>, default: usize) -> (r: usize)
    ensures
        r == positive_or(opt_view(value), default),
        value is Some && parse_usize_spec(value->0@) is Some && parse_usize_spec(value->0@)->0 > 0
            ==> r == parse_usize_spec(value->0@)->0,
        !(value is Some && parse_usize_spec(value->0@) is Some && parse_usize_spec(value->0@)->0
            > 0) ==> r == default,
{
    match value {
        Some(s) => {
            let cs = chars_of(s);
            match parse_usize(cs.as_slice()) {
                Some(n) => if n > 0 {
                    n
                } else {
                    default
                },
                None => default,
            }
        },
        None => default,
    }
}

/// The simulated worker settings.
#[derive(Debug, Clone, Copy, PartialEq, Eq, Structural)]
pub struct WorkerSettings {
    /// Simulated workers.
    pub workers: usize,
    /// Jobs launched per input.
    pub jobs_per_input: usize,
    /// Work packages executed, and results collected, per run.
    pub collect_batch: usize,
}

/// The larger of `a` and `b`.
pub open spec fn max_of(a: int, b: int) -> int {
    if a >= b {
        a
    } else {
        b
    }
}

/// The settings for `cpu_cores` processors and the overrides: by default
/// one worker per processor but one (and at least one), with a requested
/// count held between 1 and twice the processors; by default as many jobs
/// per input as workers but at least 2, and a batch as large as the workers.
pub open spec fn settings_spec(
    cpu_cores: usize,
    workers: Option<Seq<char>>,
    jobs: Option<Seq<char>>,
    batch: Option<Seq<char>>,
) -> WorkerSettings {
    let safe_default = max_of(cpu_cores - 1, 1) as usize;
    let hard_cap = max_of(cpu_cores * 2, 1);
    let requested = positive_or(workers, safe_default);
    let w = if requested > hard_cap {
        hard_cap as usize
    } else {
        requested
    };
    WorkerSettings {
        workers: w,
        jobs_per_input: positive_or(jobs, max_of(w as int, 2) as usize),
        collect_batch: positive_or(batch, w),
    }
}

/// Work out the settings from the processor count and the overrides.
pub fn worker_settings(
    cpu_cores: usize,
    workers: Option<&str>,
    jobs: Option<&str>,
    batch: Option<&str>,
) -> (s: WorkerSettings)
    requires
        cpu_cores * 2 <= usize::MAX,
    ensures
        s == settings_spec(cpu_cores, opt_view(workers), opt_view(jobs), opt_view(batch)),
        // A positive workers override is used as it is, up to twice the
        // processors (at least 1); above that it is cut to that cap.
        workers is Some && parse_usize_spec(workers->0@) is Some && 1 <= parse_usize_spec(
            workers->0@,
        )->0 <= (if cpu_cores * 2 > 1 {
            cpu_cores * 2
        } else {
            1
        }) ==> s.workers == parse_usize_spec(workers->0@)->0,
        workers is Some && parse_usize_spec(workers->0@) is Some && parse_usize_spec(
            workers->0@,
        )->0 > (if cpu_cores * 2 > 1 {
            cpu_cores * 2
        } else {
            1
        }) ==> s.workers == (if cpu_cores * 2 > 1 {
            cpu_cores * 2
        } else {
            1
        }),
        // Without one, one worker per processor but one, and at least one.
        !(workers is Some && parse_usize_spec(workers->0@) is Some && parse_usize_spec(
            workers->0@,
        )->0 > 0) ==> s.workers == (if cpu_cores > 1 {
            cpu_cores - 1
        } else {
            1
        }),
        // A positive jobs override is used as it is; without one, as many
        // jobs as workers, but at least 2.
        jobs is Some && parse_usize_spec(jobs->0@) is Some && parse_usize_spec(jobs->0@)->0 > 0
            ==> s.jobs_per_input == parse_usize_spec(jobs->0@)->0,
        !(jobs is Some && parse_usize_spec(jobs->0@) is Some && parse_usize_spec(jobs->0@)->0 > 0)
            ==> s.jobs_per_input == (if s.workers > 2 {
            s.workers
        } else {
            2
        }),
        // A positive batch override is used as it is; without one, the
        // batch is as large as the workers.
        batch is Some && parse_usize_spec(batch->0@) is Some && parse_usize_spec(batch->0@)->0 > 0
            ==> s.collect_batch == parse_usize_spec(batch->0@)->0,
        !(batch is Some && parse_usize_spec(batch->0@) is Some && parse_usize_spec(batch->0@)->0
            > 0) ==> s.collect_batch == s.workers,
        1 <= s.workers,
        s.workers <= max_of(cpu_cores * 2, 1),
        s.jobs_per_input >= 1,
        s.collect_batch >= 1,
{
    let safe_default = if cpu_cores > 1 { cpu_cores - 1 } else { 1 };
    let hard_cap = if cpu_cores * 2 > 1 { cpu_cores * 2 } else { 1 };
    let requested = parse_usize_env(workers, safe_default);
    let w = if requested > hard_cap { hard_cap } else { requested };
    let job_default = if w > 2 { w } else { 2 };
    WorkerSettings {
        workers: w,
        jobs_per_input: parse_usize_env(jobs, job_default),
        collect_batch: parse_usize_env(batch, w),
    }
}

/// An override is used exactly when it parses as a positive number: then
/// it is that number; a missing override, one that does not parse, or 0
/// gives the default.
pub proof fn law_positive_override_is_used(v: Option<Seq<char>>, default: usize)
    ensures
        v is Some && parse_usize_spec(v->0) is Some && parse_usize_spec(v->0)->0 > 0
            ==> positive_or(v, default) == parse_usize_spec(v->0)->0,
        !(v is Some && parse_usize_spec(v->0) is Some && parse_usize_spec(v->0)->0 > 0)
            ==> positive_or(v, default) == default,
{
}

/// The settings follow their overrides: a positive workers override up to
/// twice the processors (at least 1) is used as it is, a larger one is cut
/// to that cap, and without one there is one worker per processor but one
/// (at least one); the jobs default to the workers but at least 2, and the
/// batch to the workers.
pub proof fn law_settings_follow_overrides(
    cpu_cores: usize,
    workers: Option<Seq<char>>,
    jobs: Option<Seq<char>>,
    batch: Option<Seq<char>>,
)
    requires
        cpu_cores * 2 <= usize::MAX,
    ensures
        ({
            let s = settings_spec(cpu_cores, workers, jobs, batch);
            let cap: int = if cpu_cores * 2 > 1 {
                cpu_cores * 2
            } else {
                1
            };
            &&& workers is Some && parse_usize_spec(workers->0) is Some && 1 <= parse_usize_spec(
                workers->0,
            )->0 <= cap ==> s.workers == parse_usize_spec(workers->0)->0
            &&& workers is Some && parse_usize_spec(workers->0) is Some && parse_usize_spec(
                workers->0,
            )->0 > cap ==> s.workers == cap
            &&& !(workers is Some && parse_usize_spec(workers->0) is Some && parse_usize_spec(
                workers->0,
            )->0 > 0) ==> s.workers == (if cpu_cores > 1 {
                cpu_cores - 1
            } else {
                1
            })
            &&& !(jobs is Some && parse_usize_spec(jobs->0) is Some && parse_usize_spec(jobs->0)->0
                > 0) ==> s.jobs_per_input == (if s.workers > 2 {
                s.workers
            } else {
                2
            })
            &&& jobs is Some && parse_usize_spec(jobs->0) is Some && parse_usize_spec(jobs->0)->0
                > 0 ==> s.jobs_per_input == parse_usize_spec(jobs->0)->0
            &&& !(batch is Some && parse_usize_spec(batch->0) is Some && parse_usize_spec(
                batch->0,
            )->0 > 0) ==> s.collect_batch == s.workers
            &&& batch is Some && parse_usize_spec(batch->0) is Some && parse_usize_spec(
                batch->0,
            )->0 > 0 ==> s.collect_batch == parse_usize_spec(batch->0)->0
        }),
{
}

} // verus!
