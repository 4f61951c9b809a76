use fluxion::dag::Dag;
use fluxion::scheduler::{downstream_inclusive, job_outcome, job_results, plan_retry, LaunchResult, SchedState};
use fluxion::state::JobStatus;
use fluxion::workflow::{JobDefinition, PermissionSet, Workflow};
use indexmap::IndexMap;

fn job(deps: &[&str]) -> JobDefinition {
    JobDefinition {
        component: "stage.wasm".to_string(),
        depends_on: deps.iter().map(|s| s.to_string()).collect(),
        input: None,
        permissions: PermissionSet::default(),
    }
}

fn dag_of(pairs: &[(&str, &[&str])]) -> Dag {
    let mut jobs = IndexMap::new();
    for (k, vs) in pairs {
        jobs.insert(k.to_string(), job(vs));
    }
    Dag::build(&Workflow { name: "wf".to_string(), jobs }).unwrap()
}

fn pipeline() -> Dag {
    dag_of(&[
        ("fetch", &[]),
        ("normalize", &["fetch"]),
        ("validate", &["normalize"]),
        ("export", &["validate"]),
    ])
}

fn ok(ms: u64) -> JobStatus {
    JobStatus::Succeeded { elapsed_ms: ms }
}

#[test]
fn fresh_run_starts_roots_only() {
    let dag = dag_of(&[("a", &[]), ("b", &[]), ("c", &["a", "b"])]);
    let (st, launches) = SchedState::start(&dag, &Vec::new());
    assert_eq!(launches, vec![0, 1]);
    assert_eq!(st.in_flight, 2);
    assert!(matches!(st.statuses[0], JobStatus::Running));
    assert!(matches!(st.statuses[2], JobStatus::Pending));
    assert!(st.success);
}

#[test]
fn merge_job_waits_for_all_dependencies() {
    let dag = dag_of(&[("a", &[]), ("b", &[]), ("c", &["a", "b"])]);
    let (mut st, _) = SchedState::start(&dag, &Vec::new());
    let l = st.on_event(&dag, 0, ok(5)).unwrap();
    assert!(l.is_empty());
    assert_eq!(st.in_flight, 1);
    let l = st.on_event(&dag, 1, ok(7)).unwrap();
    assert_eq!(l, vec![2]);
    assert_eq!(st.in_flight, 1);
    let l = st.on_event(&dag, 2, ok(1)).unwrap();
    assert!(l.is_empty());
    assert_eq!(st.in_flight, 0);
    assert!(st.success);
    assert_eq!(st.succeeded_count(), 3);
}

#[test]
fn failure_stops_the_run() {
    let dag = pipeline();
    let (mut st, l) = SchedState::start(&dag, &Vec::new());
    assert_eq!(l, vec![0]);
    assert_eq!(st.on_event(&dag, 0, ok(10)).unwrap(), vec![1]);
    assert_eq!(st.on_event(&dag, 1, ok(10)).unwrap(), vec![2]);
    let failed = JobStatus::Failed { elapsed_ms: 3, reason: "invalid registration_year at row 184".to_string() };
    assert!(st.on_event(&dag, 2, failed).is_none());
    assert!(!st.success);
    assert_eq!(st.in_flight, 0);
    assert!(matches!(st.statuses[3], JobStatus::Pending));
    assert_eq!(st.succeeded_count(), 2);
}

#[test]
fn retry_from_validate_replays_validate_and_export() {
    let dag = pipeline();
    let replay = downstream_inclusive(&dag, 2);
    assert_eq!(replay, vec![false, false, true, true]);
    let prev = vec![
        ("fetch".to_string(), ok(2100)),
        ("normalize".to_string(), ok(800)),
        ("validate".to_string(), JobStatus::Failed { elapsed_ms: 5, reason: "bad".to_string() }),
    ];
    let pre = plan_retry(&dag, &prev, &"validate".to_string());
    assert_eq!(pre.len(), 2);
    assert_eq!(pre[0].0, "fetch");
    assert_eq!(pre[1].0, "normalize");
    let (mut st, l) = SchedState::start(&dag, &pre);
    // validate depends only on carried-over jobs, so it starts at once
    assert_eq!(l, vec![2]);
    assert_eq!(st.pre_succeeded, vec![true, true, false, false]);
    assert!(matches!(st.statuses[0], JobStatus::Succeeded { elapsed_ms: 2100 }));
    assert_eq!(st.on_event(&dag, 2, ok(1)).unwrap(), vec![3]);
    assert_eq!(st.on_event(&dag, 3, ok(1)).unwrap(), Vec::<usize>::new());
    assert!(st.success);
    assert_eq!(st.succeeded_count(), 4);
}

#[test]
fn retry_from_first_job_replays_everything() {
    let dag = pipeline();
    let prev = vec![("fetch".to_string(), ok(1)), ("normalize".to_string(), ok(1))];
    let pre = plan_retry(&dag, &prev, &"fetch".to_string());
    assert!(pre.is_empty());
    assert_eq!(downstream_inclusive(&dag, 0), vec![true; 4]);
}

#[test]
fn retry_from_unknown_job_keeps_successes() {
    let dag = pipeline();
    let prev = vec![("fetch".to_string(), ok(1)), ("gone".to_string(), ok(1)), ("normalize".to_string(), JobStatus::Cancelled)];
    let pre = plan_retry(&dag, &prev, &"nope".to_string());
    assert_eq!(pre.len(), 2);
    assert_eq!(pre[1].0, "gone");
    let (st, l) = SchedState::start(&dag, &pre);
    assert_eq!(st.extra_succeeded, 1);
    assert_eq!(l, vec![1]);
}

#[test]
fn downstream_follows_branches() {
    let dag = dag_of(&[("a", &[]), ("b", &["a"]), ("c", &["a"]), ("d", &["c"]), ("e", &[])]);
    assert_eq!(downstream_inclusive(&dag, 0), vec![true, true, true, true, false]);
    assert_eq!(downstream_inclusive(&dag, 2), vec![false, false, true, true, false]);
    assert_eq!(downstream_inclusive(&dag, 4), vec![false, false, false, false, true]);
}

#[test]
fn outcome_of_a_launch() {
    match job_outcome(2010, LaunchResult::TimedOut, 2) {
        JobStatus::Failed { elapsed_ms, reason } => {
            assert_eq!(elapsed_ms, 2010);
            assert_eq!(reason, "Timeout after 2s");
        }
        _ => panic!("expected a failure"),
    }
    assert!(matches!(job_outcome(7, LaunchResult::Completed, 60), JobStatus::Succeeded { elapsed_ms: 7 }));
    match job_outcome(1, LaunchResult::Errored("Component error: boom".to_string()), 60) {
        JobStatus::Failed { reason, .. } => assert_eq!(reason, "Component error: boom"),
        _ => panic!("expected a failure"),
    }
}

#[test]
fn results_list_finished_jobs_in_order() {
    let ids: Vec<String> = ["fetch", "normalize", "validate", "export"].iter().map(|s| s.to_string()).collect();
    let statuses = vec![
        ok(1200),
        JobStatus::Failed { elapsed_ms: 30, reason: "bad year".to_string() },
        JobStatus::Pending,
        JobStatus::Running,
    ];
    let carried = vec![true, false, false, false];
    let r = job_results(&ids, &statuses, &carried);
    assert_eq!(r.len(), 2);
    assert_eq!(r[0].job_id, "fetch");
    assert_eq!(r[0].status, "succeeded");
    assert_eq!(r[0].elapsed_ms, 1200);
    assert!(r[0].skipped);
    assert!(r[0].reason.is_none());
    assert_eq!(r[1].job_id, "normalize");
    assert_eq!(r[1].status, "failed");
    assert_eq!(r[1].elapsed_ms, 30);
    assert_eq!(r[1].reason.as_deref(), Some("bad year"));
    assert!(!r[1].skipped);
    assert!(job_results(&vec![], &vec![], &vec![]).is_empty());
}

/// Drives a run in which every started job succeeds, in the order the jobs
/// were started; returns the order of completion.
fn run_to_end(dag: &Dag, pre: &Vec<(String, JobStatus)>) -> (SchedState, Vec<usize>) {
    let (mut st, first) = SchedState::start(dag, pre);
    let mut queue: std::collections::VecDeque<usize> = first.into_iter().collect();
    let mut done = Vec::new();
    while let Some(job) = queue.pop_front() {
        done.push(job);
        let next = st.on_event(dag, job, ok(1)).unwrap();
        queue.extend(next);
    }
    (st, done)
}

#[test]
fn a_run_without_failures_runs_every_job() {
    let dag = dag_of(&[("step-1", &[]), ("step-2", &["step-1"]), ("step-3", &["step-2"])]);
    let (st, done) = run_to_end(&dag, &Vec::new());
    assert_eq!(done, vec![0, 1, 2]);
    assert_eq!(st.in_flight, 0);
    assert!(st.success);
    assert!(st.statuses.iter().all(|s| matches!(s, JobStatus::Succeeded { .. })));

    let wide = dag_of(&[("a", &[]), ("b", &["a"]), ("c", &["a"]), ("d", &["b", "c"]), ("e", &[])]);
    let (st, done) = run_to_end(&wide, &Vec::new());
    assert_eq!(done.len(), 5);
    assert!(st.statuses.iter().all(|s| matches!(s, JobStatus::Succeeded { .. })));
}

#[test]
fn retry_run_skips_carried_jobs_and_finishes_the_rest() {
    let dag = pipeline();
    let prev = vec![
        ("fetch".to_string(), ok(10)),
        ("normalize".to_string(), ok(20)),
        ("validate".to_string(), JobStatus::Failed { elapsed_ms: 3, reason: "bad year".to_string() }),
        ("export".to_string(), JobStatus::Pending),
    ];
    let pre = plan_retry(&dag, &prev, &"validate".to_string());
    let (st, done) = run_to_end(&dag, &pre);
    assert_eq!(done, vec![2, 3]);
    assert_eq!(st.pre_succeeded, vec![true, true, false, false]);
    assert!(st.statuses.iter().all(|s| matches!(s, JobStatus::Succeeded { .. })));
}
