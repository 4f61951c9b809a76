//! Workflow definitions: jobs, their dependencies and their permissions.
use indexmap::IndexMap;
use vstd::prelude::*;

verus! {

#[verifier::external_type_specification]
#[verifier::external_body]
#[verifier::reject_recursive_types(K)]
#[verifier::reject_recursive_types(V)]
#[verifier::reject_recursive_types(S)]
pub struct ExIndexMap<K, V, S>(IndexMap<K, V, S>);

/// A workflow: a name and its jobs, keyed by job id in definition order.
pub struct Workflow {
    pub name: String,
    pub jobs: IndexMap<String, JobDefinition>,
}

/// One job of a workflow.
#[derive(Clone, Debug)]
pub struct JobDefinition {
    /// Path of the Wasm component to run.
    pub component: String,
    /// Ids of the jobs that must succeed before this one starts.
    pub depends_on: Vec<String>,
    /// Payload handed to the component.
    pub input: Option<String>,
    pub permissions: PermissionSet,
}

/// Capabilities granted to a job.
#[derive(Clone, Debug)]
pub struct PermissionSet {
    pub filesystem: FilesystemPermission,
    pub network: NetworkPermission,
    pub limits: ResourceLimits,
}

#[derive(Clone, Debug)]
pub struct FilesystemPermission {
    /// Directories the component may read from (guest path = host path).
    pub read: Vec<String>,
    /// Directories the component may read and write.
    pub write: Vec<String>,
}

#[derive(Clone, Debug)]
pub struct NetworkPermission {
    /// Allowlist of host:port strings. Empty = deny all.
    pub allow: Vec<String>,
}

#[derive(Clone, Debug)]
pub struct ResourceLimits {
    pub memory_mb: u64,
    pub timeout_secs: u64,
}

/// Why a workflow definition was rejected.
#[derive(Clone, Debug)]
pub enum WorkflowError {
    /// Job `job` names `dep` among its dependencies, and no job has that id.
    UnknownDependency { job: String, dep: String },
}

/// The entries of a job table, in its order: job id and definition.
pub uninterp spec fn job_entries(m: IndexMap<String, JobDefinition>) -> Seq<(String, JobDefinition)>;

/// `IndexMap::len`: the number of entries of the table.
#[verifier::external_body]
pub(crate) fn jobs_len(m: &IndexMap<String, JobDefinition>) -> (n: usize)
    ensures
        n == job_entries(*m).len(),
{
    m.len()
}

/// `IndexMap::get_index`: the entry at position `i`, if there is one. An `IndexMap`
/// holds each key once, so no other entry has the same key.
#[verifier::external_body]
pub(crate) fn jobs_get_index(m: &IndexMap<String, JobDefinition>, i: usize) -> (r: Option<
    (&String, &JobDefinition),
>)
    ensures
        r is Some <==> i < job_entries(*m).len(),
        r matches Some(e) ==> *e.0 == job_entries(*m)[i as int].0 && *e.1 == job_entries(
            *m,
        )[i as int].1,
        r matches Some(e) ==> forall|j: int|
            0 <= j < job_entries(*m).len() && j != i ==> (#[trigger] job_entries(*m)[j]).0@
                != e.0@,
{
    m.get_index(i)
}

/// `IndexMap::contains_key`: whether some entry has key `key`.
#[verifier::external_body]
pub(crate) fn jobs_contains_key(m: &IndexMap<String, JobDefinition>, key: &String) -> (r: bool)
    ensures
        r == (exists|i: int|
            0 <= i < job_entries(*m).len() && (#[trigger] job_entries(*m)[i]).0@ == key@),
{
    m.contains_key(key)
}

/// `str::starts_with`: whether `prefix` is a prefix of `s`.
#[verifier::external_body]
pub(crate) fn str_starts_with(s: &str, prefix: &str) -> (r: bool)
    ensures
        r == prefix@.is_prefix_of(s@),
{
    s.starts_with(prefix)
}

/// Job ids of a workflow, in definition order.
pub open spec fn job_ids(wf: Workflow) -> Seq<Seq<char>> {
    job_entries(wf.jobs).map_values(|e: (String, JobDefinition)| e.0@)
}

/// The dependency names of each job of a workflow, in definition order.
pub open spec fn job_dep_names(wf: Workflow) -> Seq<Seq<Seq<char>>> {
    job_entries(wf.jobs).map_values(
        |e: (String, JobDefinition)| e.1.depends_on@.map_values(|s: String| s@),
    )
}

/// Whether `name` is the id of a job.
pub open spec fn names_job(ids: Seq<Seq<char>>, name: Seq<char>) -> bool {
    exists|i: int| 0 <= i < ids.len() && ids[i] == name
}

/// Every dependency of jobs `0..i` names a job.
pub open spec fn deps_known_upto(ids: Seq<Seq<char>>, deps: Seq<Seq<Seq<char>>>, i: int) -> bool {
    forall|a: int, k: int|
        0 <= a < i && 0 <= k < deps[a].len() ==> names_job(ids, #[trigger] deps[a][k])
}

/// The first unknown dependency is dependency `k` of job `i`.
pub open spec fn first_unknown_dep(
    ids: Seq<Seq<char>>,
    deps: Seq<Seq<Seq<char>>>,
    i: int,
    k: int,
) -> bool {
    &&& 0 <= i < ids.len()
    &&& 0 <= k < deps[i].len()
    &&& deps_known_upto(ids, deps, i)
    &&& forall|k2: int| 0 <= k2 < k ==> names_job(ids, #[trigger] deps[i][k2])
    &&& !names_job(ids, deps[i][k])
}

impl Workflow {
    /// Checks that every dependency names a job of the workflow; the error
    /// names the first job, in definition order, with an unknown dependency,
    /// and its first unknown dependency.
    pub fn validate(&self) -> (r: Result<(), WorkflowError>)
        ensures
            r is Ok <==> deps_known_upto(job_ids(*self), job_dep_names(*self), job_ids(*self).len() as int),
            r matches Err(WorkflowError::UnknownDependency { job, dep }) ==> exists|i: int, k: int|
                first_unknown_dep(job_ids(*self), job_dep_names(*self), i, k) && job@ == job_ids(
                    *self,
                )[i] && dep@ == job_dep_names(*self)[i][k],
    {
        let ghost ids = job_ids(*self);
        let ghost deps = job_dep_names(*self);
        let n = jobs_len(&self.jobs);
        let mut i: usize = 0;
        while i < n
            invariant
                n == ids.len(),
                ids == job_ids(*self),
                deps == job_dep_names(*self),
                0 <= i <= n,
                deps_known_upto(ids, deps, i as int),
            decreases n - i,
        {
            let (job_id, def) = jobs_get_index(&self.jobs, i).unwrap();
            let ghost e = job_entries(self.jobs)[i as int];
            assert(deps[i as int] == def.depends_on@.map_values(|s: String| s@));
            let mut k: usize = 0;
            while k < def.depends_on.len()
                invariant
                    n == ids.len(),
                    ids == job_ids(*self),
                    deps == job_dep_names(*self),
                    0 <= i < n,
                    deps_known_upto(ids, deps, i as int),
                    deps[i as int] == def.depends_on@.map_values(|s: String| s@),
                    job_id@ == ids[i as int],
                    0 <= k <= def.depends_on.len(),
                    forall|k2: int| 0 <= k2 < k ==> names_job(ids, #[trigger] deps[i as int][k2]),
                decreases def.depends_on.len() - k,
            {
                let dep = &def.depends_on[k];
                let known = jobs_contains_key(&self.jobs, dep);
                proof {
                    assert(deps[i as int][k as int] == dep@);
                    if known {
                        let j = choose|j: int|
                            0 <= j < job_entries(self.jobs).len() && (#[trigger] job_entries(
                                self.jobs,
                            )[j]).0@ == dep@;
                        assert(ids[j] == dep@);
                    } else {
                        if names_job(ids, dep@) {
                            let j = choose|j: int| 0 <= j < ids.len() && ids[j] == dep@;
                            assert(job_entries(self.jobs)[j].0@ == dep@);
                        }
                    }
                }
                if !known {
                    proof {
                        assert(first_unknown_dep(ids, deps, i as int, k as int));
                        assert(!deps_known_upto(ids, deps, n as int)) by {
                            assert(!names_job(ids, deps[i as int][k as int]));
                        }
                    }
                    return Err(
                        WorkflowError::UnknownDependency { job: job_id.clone(), dep: dep.clone() },
                    );
                }
                k += 1;
            }
            proof {
                assert forall|a: int, kk: int|
                    0 <= a < i + 1 && 0 <= kk < deps[a].len() implies names_job(
                    ids,
                    #[trigger] deps[a][kk],
                ) by {
                    if a < i {
                    } else {
                        assert(deps[a][kk] == deps[i as int][kk]);
                    }
                }
            }
            i += 1;
        }
        Ok(())
    }
}

impl NetworkPermission {
    /// Whether `addr` starts with one of the allowlist entries.
    pub fn allows(&self, addr: &str) -> (r: bool)
        ensures
            r == exists|i: int| 0 <= i < self.allow@.len() && (#[trigger] self.allow@[i])@.is_prefix_of(addr@),
    {
        let mut i: usize = 0;
        while i < self.allow.len()
            invariant
                0 <= i <= self.allow.len(),
                forall|j: int| 0 <= j < i ==> !(#[trigger] self.allow@[j])@.is_prefix_of(addr@),
            decreases self.allow.len() - i,
        {
            if str_starts_with(addr, self.allow[i].as_str()) {
                return true;
            }
            i += 1;
        }
        false
    }

    /// Whether the allowlist is empty, which denies every address.
    pub fn is_deny_all(&self) -> (r: bool)
        ensures
            r == (self.allow@.len() == 0),
    {
        self.allow.len() == 0
    }
}

/// Default memory limit, in megabytes.
pub fn default_memory_mb() -> (r: u64)
    ensures
        r == 256,
{
    256
}

/// Default time limit, in seconds.
pub fn default_timeout_secs() -> (r: u64)
    ensures
        r == 60,
{
    60
}

impl Default for ResourceLimits {
    fn default() -> (r: Self)
        ensures
            r.memory_mb == 256,
            r.timeout_secs == 60,
    {
        ResourceLimits { memory_mb: 256, timeout_secs: 60 }
    }
}

impl Default for FilesystemPermission {
    fn default() -> (r: Self)
        ensures
            r.read@.len() == 0,
            r.write@.len() == 0,
    {
        FilesystemPermission { read: Vec::new(), write: Vec::new() }
    }
}

impl Default for NetworkPermission {
    fn default() -> (r: Self)
        ensures
            r.allow@.len() == 0,
    {
        NetworkPermission { allow: Vec::new() }
    }
}

impl Default for PermissionSet {
    fn default() -> (r: Self)
        ensures
            r.filesystem.read@.len() == 0,
            r.filesystem.write@.len() == 0,
            r.network.allow@.len() == 0,
            r.limits.memory_mb == 256,
            r.limits.timeout_secs == 60,
    {
        PermissionSet {
            filesystem: FilesystemPermission { read: Vec::new(), write: Vec::new() },
            network: NetworkPermission { allow: Vec::new() },
            limits: ResourceLimits { memory_mb: default_memory_mb(), timeout_secs: default_timeout_secs() },
        }
    }
}

impl WorkflowError {
    /// The error's message.
    pub fn message(&self) -> (r: String)
        ensures
            match self {
                WorkflowError::UnknownDependency { job, dep } => r@ == "Job '"@ + job@
                    + "' depends on unknown job '"@ + dep@ + "'"@,
            },
    {
        match self {
            WorkflowError::UnknownDependency { job, dep } => {
                let mut s = String::from_str("Job '");
                s.append(job.as_str());
                s.append("' depends on unknown job '");
                s.append(dep.as_str());
                s.append("'");
                s
            },
        }
    }
}

} // verus!
