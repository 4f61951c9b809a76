use fluxion::report::column_width;
use fluxion::report::timeline;
use fluxion::runner::JobResult;
use fluxion::text::fmt_unix;
use fluxion::wit::{
    built_message, componentize_args, componentize_exit_failure, componentize_launch_failure,
    resolve_wit_path,
};

#[test]
fn clock_times() {
    assert_eq!(fmt_unix(0), "00:00:00");
    assert_eq!(fmt_unix(3600 * 25 + 61), "01:01:01");
    assert_eq!(fmt_unix(86399), "23:59:59");
    assert_eq!(fmt_unix(43_205), "12:00:05");
}

#[test]
fn timeline_accumulates_whole_seconds() {
    let t = timeline(100, &vec![Some(2100), None, Some(999), Some(3000)]);
    assert_eq!(t, vec![(100, 102), (102, 102), (102, 102), (102, 105)]);
}

#[test]
fn job_results() {
    let r = JobResult::from_succeeded("fetch".to_string(), 2100, true);
    assert_eq!((r.status.as_str(), r.elapsed_ms, r.skipped), ("succeeded", 2100, true));
    assert!(r.reason.is_none());
    let f = JobResult::from_failed("validate".to_string(), 5, "year=1999".to_string());
    assert_eq!(f.status, "failed");
    assert_eq!(f.reason.as_deref(), Some("year=1999"));
    assert!(!f.skipped);
}

#[test]
fn wit_path_default() {
    assert_eq!(resolve_wit_path(None), "./wit");
    assert_eq!(resolve_wit_path(Some("/x/wit".to_string())), "/x/wit");
}

#[test]
fn column_width_is_the_longest_name_in_bytes() {
    assert_eq!(column_width(&vec![]), 0);
    assert_eq!(column_width(&vec!["fetch".to_string(), "normalize".to_string(), "x".to_string()]), 9);
    assert_eq!(column_width(&vec!["é".to_string(), "a".to_string()]), 2);
    assert_eq!(column_width(&vec![String::new()]), 0);
}

#[test]
fn componentize_command_line() {
    assert_eq!(
        componentize_args("/abs/wit", "app", "out.wasm"),
        vec!["-d", "/abs/wit", "-w", "task-component", "componentize", "app", "-o", "out.wasm"]
    );
    assert_eq!(
        componentize_launch_failure(true, "ignored"),
        "`componentize-py` not found on PATH.\nInstall it with: pip install componentize-py"
    );
    assert_eq!(componentize_launch_failure(false, "denied"), "failed to run componentize-py: denied");
    assert_eq!(componentize_exit_failure(Some(2)), "componentize-py exited with status 2");
    assert_eq!(componentize_exit_failure(Some(-9)), "componentize-py exited with status -9");
    assert_eq!(componentize_exit_failure(None), "componentize-py exited with status -1");
    assert_eq!(built_message("a/app.py", "app.wasm"), "Built a/app.py \u{2192} app.wasm");
}
