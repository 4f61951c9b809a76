use fluxion::dag::{kahn_sort, Dag};
use fluxion::workflow::{JobDefinition, PermissionSet, Workflow};
use indexmap::IndexMap;

fn make_deps(pairs: &[(&str, &[&str])]) -> Vec<(String, Vec<String>)> {
    pairs
        .iter()
        .map(|(k, vs)| (k.to_string(), vs.iter().map(|s| s.to_string()).collect()))
        .collect()
}

fn job(deps: &[&str]) -> JobDefinition {
    JobDefinition {
        component: "foo.wasm".to_string(),
        depends_on: deps.iter().map(|s| s.to_string()).collect(),
        input: None,
        permissions: PermissionSet::default(),
    }
}

fn workflow(pairs: &[(&str, &[&str])]) -> Workflow {
    let mut jobs = IndexMap::new();
    for (k, vs) in pairs {
        jobs.insert(k.to_string(), job(vs));
    }
    Workflow { name: "wf".to_string(), jobs }
}

#[test]
fn linear_chain_is_ordered() {
    let deps = make_deps(&[("a", &[]), ("b", &["a"]), ("c", &["b"])]);
    let order = kahn_sort(&deps).unwrap();
    assert_eq!(order, ["a", "b", "c"]);
}

#[test]
fn parallel_roots_end_with_merge() {
    let deps = make_deps(&[("a", &[]), ("b", &[]), ("c", &["a", "b"])]);
    let order = kahn_sort(&deps).unwrap();
    assert_eq!(order.len(), 3);
    assert_eq!(order.last().unwrap(), "c");
}

#[test]
fn cycle_is_detected() {
    let deps = make_deps(&[("a", &["b"]), ("b", &["a"])]);
    assert!(kahn_sort(&deps).is_err());
}

#[test]
fn self_dependency_is_a_cycle() {
    let deps = make_deps(&[("a", &["a"])]);
    assert!(kahn_sort(&deps).is_err());
}

#[test]
fn unknown_dependency_cannot_be_ordered() {
    let deps = make_deps(&[("a", &[]), ("b", &["zzz"])]);
    assert!(kahn_sort(&deps).is_err());
}

#[test]
fn every_job_comes_after_its_dependencies() {
    let deps = make_deps(&[
        ("export", &["validate"]),
        ("validate", &["normalize"]),
        ("fetch", &[]),
        ("normalize", &["fetch"]),
        ("report", &["fetch", "validate"]),
    ]);
    let order = kahn_sort(&deps).unwrap();
    assert_eq!(order.len(), 5);
    let pos = |n: &str| order.iter().position(|x| x == n).unwrap();
    for (job, ds) in &deps {
        for d in ds {
            assert!(pos(d) < pos(job), "{} before {}", d, job);
        }
    }
}

#[test]
fn empty_graph_has_empty_order() {
    let deps: Vec<(String, Vec<String>)> = Vec::new();
    assert_eq!(kahn_sort(&deps).unwrap(), Vec::<String>::new());
}

#[test]
fn build_lists_deps_dependents_and_roots() {
    let wf = workflow(&[("a", &[]), ("b", &["a"]), ("c", &["a", "b"]), ("d", &[])]);
    let dag = Dag::build(&wf).unwrap();
    assert_eq!(dag.jobs, ["a", "b", "c", "d"]);
    assert_eq!(dag.deps, vec![vec![], vec![0], vec![0, 1], vec![]]);
    assert_eq!(dag.dependents, vec![vec![1, 2], vec![2], vec![], vec![]]);
    assert_eq!(dag.roots(), ["a", "d"]);
    assert_eq!(dag.topo_order.len(), 4);
    assert_eq!(dag.topo_order[0], "a");
}

#[test]
fn build_rejects_cycles() {
    let wf = workflow(&[("a", &["c"]), ("b", &["a"]), ("c", &["b"])]);
    let err = Dag::build(&wf).err().unwrap();
    assert_eq!(err.message(), "Workflow contains a circular dependency");
}

#[test]
fn build_rejects_unknown_dependency() {
    let wf = workflow(&[("a", &["ghost"])]);
    assert!(Dag::build(&wf).is_err());
}
