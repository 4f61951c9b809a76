//! The stored form of runs and job states, and the records read back.
use vstd::prelude::*;

use crate::state::{JobStatus, JobStatusView};
use crate::text::{decimal, str_eq, u32_to_decimal, u64_to_decimal};

verus! {

/// The stored label of a state.
pub open spec fn status_label(s: JobStatusView) -> Seq<char> {
    match s {
        JobStatusView::Succeeded { .. } => "succeeded"@,
        JobStatusView::Failed { .. } => "failed"@,
        JobStatusView::Cancelled => "cancelled"@,
        JobStatusView::Running => "running"@,
        JobStatusView::Pending => "pending"@,
    }
}

/// The stored elapsed time of a state, in milliseconds.
pub open spec fn status_elapsed(s: JobStatusView) -> Option<u64> {
    match s {
        JobStatusView::Succeeded { elapsed_ms } => Some(elapsed_ms),
        JobStatusView::Failed { elapsed_ms, .. } => Some(elapsed_ms),
        _ => None,
    }
}

/// The stored failure reason of a state.
pub open spec fn status_reason(s: JobStatusView) -> Option<Seq<char>> {
    match s {
        JobStatusView::Failed { reason, .. } => Some(reason),
        _ => None,
    }
}

/// The state that a stored row stands for.
pub open spec fn decoded_status(
    label: Seq<char>,
    elapsed_ms: Option<u64>,
    reason: Option<Seq<char>>,
) -> JobStatusView {
    let ms = match elapsed_ms {
        Some(v) => v,
        None => 0u64,
    };
    if label == "succeeded"@ {
        JobStatusView::Succeeded { elapsed_ms: ms }
    } else if label == "failed"@ {
        JobStatusView::Failed {
            elapsed_ms: ms,
            reason: match reason {
                Some(r) => r,
                None => Seq::empty(),
            },
        }
    } else if label == "cancelled"@ {
        JobStatusView::Cancelled
    } else {
        JobStatusView::Pending
    }
}

/// The stored form of a state: label, elapsed milliseconds, failure reason.
pub fn serialize_status(s: &JobStatus) -> (r: (&'static str, Option<u64>, Option<String>))
    ensures
        r.0@ == status_label(s@),
        r.1 == status_elapsed(s@),
        match r.2 {
            Some(x) => status_reason(s@) == Some(x@),
            None => status_reason(s@) is None,
        },
{
    match s {
        JobStatus::Succeeded { elapsed_ms } => ("succeeded", Some(*elapsed_ms), None),
        JobStatus::Failed { elapsed_ms, reason } => ("failed", Some(*elapsed_ms), Some(reason.clone())),
        JobStatus::Cancelled => ("cancelled", None, None),
        JobStatus::Running => ("running", None, None),
        JobStatus::Pending => ("pending", None, None),
    }
}

/// The state that a stored row stands for; an unknown label reads as pending.
pub fn parse_status(label: &str, elapsed_ms: Option<u64>, reason: Option<String>) -> (r: JobStatus)
    ensures
        r@ == decoded_status(
            label@,
            elapsed_ms,
            match reason {
                Some(x) => Some(x@),
                None => None,
            },
        ),
{
    let ms = match elapsed_ms {
        Some(v) => v,
        None => 0,
    };
    if str_eq(label, "succeeded") {
        JobStatus::Succeeded { elapsed_ms: ms }
    } else if str_eq(label, "failed") {
        let reason = match reason {
            Some(x) => x,
            None => String::new(),
        };
        JobStatus::Failed { elapsed_ms: ms, reason }
    } else if str_eq(label, "cancelled") {
        JobStatus::Cancelled
    } else {
        JobStatus::Pending
    }
}

/// Reading back a stored state gives the state again, except that a running
/// job reads back as pending.
pub proof fn lemma_status_roundtrip(s: JobStatusView)
    ensures
        decoded_status(status_label(s), status_elapsed(s), status_reason(s)) == match s {
            JobStatusView::Running => JobStatusView::Pending,
            _ => s,
        },
{
    reveal_strlit("succeeded");
    reveal_strlit("failed");
    reveal_strlit("cancelled");
    reveal_strlit("running");
    reveal_strlit("pending");
    assert("failed"@ != "succeeded"@) by {
        assert("failed"@.len() != "succeeded"@.len());
    }
    assert("cancelled"@ != "succeeded"@) by {
        assert("cancelled"@[0] != "succeeded"@[0]);
    }
    assert("cancelled"@ != "failed"@) by {
        assert("cancelled"@.len() != "failed"@.len());
    }
    assert("running"@ != "succeeded"@ && "running"@ != "failed"@ && "running"@ != "cancelled"@) by {
        assert("running"@.len() == 7);
    }
    assert("pending"@ != "succeeded"@ && "pending"@ != "failed"@ && "pending"@ != "cancelled"@) by {
        assert("pending"@.len() == 7);
    }
}

/// The stored label of a finished run.
pub fn run_status_label(success: bool) -> (r: &'static str)
    ensures
        r@ == if success {
            "succeeded"@
        } else {
            "failed"@
        },
{
    if success {
        "succeeded"
    } else {
        "failed"
    }
}

/// A run id made of a start time and a process id.
pub open spec fn run_id_text(secs: nat, pid: nat) -> Seq<char> {
    "run-"@ + decimal(secs) + "-"@ + decimal(pid)
}

/// The id of a run started at Unix time `secs` by process `pid`: `run-<secs>-<pid>`.
pub fn run_id(secs: u64, pid: u32) -> (r: String)
    ensures
        r@ == run_id_text(secs as nat, pid as nat),
{
    let mut s = String::from_str("run-");
    let a = u64_to_decimal(secs);
    s.append(a.as_str());
    s.append("-");
    let b = u32_to_decimal(pid);
    s.append(b.as_str());
    s
}

/// One line of the run list.
pub struct RunSummary {
    pub id: String,
    pub workflow_name: String,
    pub started_at: u64,
    pub status: String,
}

/// Metadata of one run.
pub struct RunDetail {
    pub id: String,
    pub workflow_name: String,
    pub workflow_path: String,
    pub started_at: u64,
    pub completed_at: Option<u64>,
    pub status: String,
}

/// The stored record of one job of a run.
pub struct JobDetail {
    pub job_id: String,
    pub status: String,
    pub elapsed_ms: Option<u64>,
    pub reason: Option<String>,
}

} // verus!
