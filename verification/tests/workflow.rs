use fluxion::workflow::{
    default_memory_mb, default_timeout_secs, JobDefinition, NetworkPermission, PermissionSet,
    ResourceLimits, Workflow, WorkflowError,
};
use indexmap::IndexMap;

fn job(deps: &[&str]) -> JobDefinition {
    JobDefinition {
        component: "foo.wasm".to_string(),
        depends_on: deps.iter().map(|s| s.to_string()).collect(),
        input: None,
        permissions: PermissionSet::default(),
    }
}

fn workflow(pairs: &[(&str, &[&str])]) -> Workflow {
    let mut jobs = IndexMap::new();
    for (k, vs) in pairs {
        jobs.insert(k.to_string(), job(vs));
    }
    Workflow { name: "wf".to_string(), jobs }
}

#[test]
fn validate_accepts_known_dependencies() {
    let wf = workflow(&[("connect-allowed", &[]), ("connect-denied", &["connect-allowed"])]);
    assert!(wf.validate().is_ok());
}

#[test]
fn validate_names_first_unknown_dependency() {
    let wf = workflow(&[("a", &[]), ("b", &["a", "x", "y"]), ("c", &["z"])]);
    match wf.validate() {
        Err(WorkflowError::UnknownDependency { job, dep }) => {
            assert_eq!(job, "b");
            assert_eq!(dep, "x");
        }
        Ok(()) => panic!("expected an error"),
    }
    let err = wf.validate().err().unwrap();
    assert_eq!(err.message(), "Job 'b' depends on unknown job 'x'");
}

#[test]
fn defaults_are_256_mb_and_60_s() {
    assert_eq!(default_memory_mb(), 256);
    assert_eq!(default_timeout_secs(), 60);
    let l = ResourceLimits::default();
    assert_eq!((l.memory_mb, l.timeout_secs), (256, 60));
    let p = PermissionSet::default();
    assert!(p.network.is_deny_all());
    assert!(p.filesystem.read.is_empty() && p.filesystem.write.is_empty());
    assert_eq!(p.limits.memory_mb, 256);
}

#[test]
fn allows_matches_prefixes() {
    let n = NetworkPermission { allow: vec!["127.0.0.1:19999".to_string(), "10.0.".to_string()] };
    assert!(n.allows("127.0.0.1:19999"));
    assert!(n.allows("10.0.3.4:80"));
    assert!(!n.allows("127.0.0.1:1999"));
    assert!(!n.allows("192.168.0.1:80"));
    assert!(!n.is_deny_all());
    let none = NetworkPermission { allow: vec![] };
    assert!(none.is_deny_all());
    assert!(!none.allows("127.0.0.1:19999"));
}
