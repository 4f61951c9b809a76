//! Job states and their stored form.
use vstd::prelude::*;

verus! {

/// The state of one job in a run.
#[derive(Debug)]
pub enum JobStatus {
    Pending,
    Running,
    Succeeded { elapsed_ms: u64 },
    Failed { elapsed_ms: u64, reason: String },
    Cancelled,
}

/// A job state as a mathematical value.
pub enum JobStatusView {
    Pending,
    Running,
    Succeeded { elapsed_ms: u64 },
    Failed { elapsed_ms: u64, reason: Seq<char> },
    Cancelled,
}

impl View for JobStatus {
    type V = JobStatusView;

    open spec fn view(&self) -> JobStatusView {
        match self {
            JobStatus::Pending => JobStatusView::Pending,
            JobStatus::Running => JobStatusView::Running,
            JobStatus::Succeeded { elapsed_ms } => JobStatusView::Succeeded { elapsed_ms: *elapsed_ms },
            JobStatus::Failed { elapsed_ms, reason } => JobStatusView::Failed {
                elapsed_ms: *elapsed_ms,
                reason: reason@,
            },
            JobStatus::Cancelled => JobStatusView::Cancelled,
        }
    }
}

impl Clone for JobStatus {
    fn clone(&self) -> (r: Self)
        ensures
            r == *self,
    {
        match self {
            JobStatus::Pending => JobStatus::Pending,
            JobStatus::Running => JobStatus::Running,
            JobStatus::Succeeded { elapsed_ms } => JobStatus::Succeeded { elapsed_ms: *elapsed_ms },
            JobStatus::Failed { elapsed_ms, reason } => JobStatus::Failed {
                elapsed_ms: *elapsed_ms,
                reason: reason.clone(),
            },
            JobStatus::Cancelled => JobStatus::Cancelled,
        }
    }
}

impl JobStatus {
    /// Whether the job finished successfully.
    pub fn is_succeeded(&self) -> (r: bool)
        ensures
            r == (*self is Succeeded),
    {
        match self {
            JobStatus::Succeeded { .. } => true,
            _ => false,
        }
    }
}

} // verus!
