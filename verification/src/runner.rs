//! The result of a run, as reported to callers.
use vstd::prelude::*;

verus! {

/// The outcome of a whole run.
pub struct RunResult {
    pub run_id: String,
    pub workflow_name: String,
    pub jobs: Vec<JobResult>,
    pub total_elapsed_ms: u64,
    pub succeeded: usize,
    pub total: usize,
    pub success: bool,
}

/// The outcome of one job of a run.
pub struct JobResult {
    pub job_id: String,
    pub status: String,
    pub elapsed_ms: u64,
    pub reason: Option<String>,
    pub skipped: bool,
}

impl JobResult {
    /// A job that succeeded after `elapsed_ms` milliseconds; `skipped` marks a
    /// job carried over from an earlier run.
    pub fn from_succeeded(job_id: String, elapsed_ms: u64, skipped: bool) -> (r: Self)
        ensures
            r.job_id == job_id,
            r.status@ == "succeeded"@,
            r.elapsed_ms == elapsed_ms,
            r.reason is None,
            r.skipped == skipped,
    {
        JobResult {
            job_id,
            status: String::from_str("succeeded"),
            elapsed_ms,
            reason: None,
            skipped,
        }
    }

    /// A job that failed after `elapsed_ms` milliseconds, for `reason`.
    pub fn from_failed(job_id: String, elapsed_ms: u64, reason: String) -> (r: Self)
        ensures
            r.job_id == job_id,
            r.status@ == "failed"@,
            r.elapsed_ms == elapsed_ms,
            r.reason == Some(reason),
            !r.skipped,
    {
        JobResult {
            job_id,
            status: String::from_str("failed"),
            elapsed_ms,
            reason: Some(reason),
            skipped: false,
        }
    }
}

} // verus!
