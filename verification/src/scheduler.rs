//! Scheduling decisions of a workflow run: which jobs start first, which jobs
//! a finished job releases, when a run stops, and which jobs a retry replays.
//! The caller runs the jobs and reports each one's outcome back.
use vstd::prelude::*;

use crate::dag::{
    deps_before, find_job, graph, index_of, is_topo_order, lemma_index_of, node_deps, placed_before, str_views, Dag,
};
use crate::workflow::names_job;
use crate::seqs::{count_in, lemma_distinct_below, lemma_count_at, lemma_count_no_dup, lemma_count_pos, lemma_no_dup_count};
use crate::runner::JobResult;
use crate::state::{JobStatus, JobStatusView};
use crate::text::{decimal, u64_to_decimal};

verus! {

/// The status of job `x`.
pub open spec fn status_of(st: Seq<JobStatus>, x: usize) -> JobStatus {
    st[x as int]
}

/// Every job of `ds` has succeeded.
pub open spec fn deps_succeeded(ds: Seq<usize>, st: Seq<JobStatus>) -> bool {
    forall|k: int| 0 <= k < ds.len() ==> #[trigger] status_of(st, ds[k]) is Succeeded
}

/// Number of running jobs.
pub open spec fn count_running(st: Seq<JobStatus>) -> nat
    decreases st.len(),
{
    if st.len() == 0 {
        0
    } else {
        count_running(st.drop_last()) + if st.last() is Running {
            1nat
        } else {
            0nat
        }
    }
}

/// Number of succeeded jobs.
pub open spec fn count_succeeded(st: Seq<JobStatus>) -> nat
    decreases st.len(),
{
    if st.len() == 0 {
        0
    } else {
        count_succeeded(st.drop_last()) + if st.last() is Succeeded {
            1nat
        } else {
            0nat
        }
    }
}

pub proof fn lemma_count_running_update(st: Seq<JobStatus>, i: int, s: JobStatus)
    requires
        0 <= i < st.len(),
    ensures
        count_running(st.update(i, s)) + (if st[i] is Running {
            1int
        } else {
            0int
        }) == count_running(st) + (if s is Running {
            1int
        } else {
            0int
        }),
    decreases st.len(),
{
    if i < st.len() - 1 {
        lemma_count_running_update(st.drop_last(), i, s);
        assert(st.update(i, s).drop_last() =~= st.drop_last().update(i, s));
    } else {
        assert(st.update(i, s).drop_last() =~= st.drop_last());
    }
}

/// Scanning the dependents `list` of a job that just finished: each one that
/// is not carried over from an earlier run and whose dependencies have all
/// succeeded is started. Gives the new statuses and the started jobs, in order.
pub open spec fn release(
    g: Seq<Seq<usize>>,
    pre: Seq<bool>,
    st: Seq<JobStatus>,
    list: Seq<usize>,
) -> (Seq<JobStatus>, Seq<usize>)
    decreases list.len(),
{
    if list.len() == 0 {
        (st, Seq::empty())
    } else {
        let prev = release(g, pre, st, list.drop_last());
        let w = list.last();
        if !pre[w as int] && deps_succeeded(g[w as int], prev.0) {
            (prev.0.update(w as int, JobStatus::Running), prev.1.push(w))
        } else {
            prev
        }
    }
}

/// The bookkeeping of a run in progress.
pub struct SchedState {
    /// Status of each job, by position in the workflow.
    pub statuses: Vec<JobStatus>,
    /// Whether each job is carried over from an earlier run.
    pub pre_succeeded: Vec<bool>,
    /// Carried-over succeeded entries that name no job of the workflow.
    pub extra_succeeded: usize,
    /// Jobs started and not yet reported.
    pub in_flight: usize,
    /// False once a job has failed.
    pub success: bool,
}

/// Changing one status changes the number of successes exactly by whether
/// the old and the new status are successes.
pub proof fn lemma_count_succeeded_update(st: Seq<JobStatus>, i: int, s: JobStatus)
    requires
        0 <= i < st.len(),
    ensures
        count_succeeded(st.update(i, s)) + (if st[i] is Succeeded {
            1int
        } else {
            0int
        }) == count_succeeded(st) + (if s is Succeeded {
            1int
        } else {
            0int
        }),
    decreases st.len(),
{
    if i < st.len() - 1 {
        lemma_count_succeeded_update(st.drop_last(), i, s);
        assert(st.update(i, s).drop_last() =~= st.drop_last().update(i, s));
    } else {
        assert(st.update(i, s).drop_last() =~= st.drop_last());
    }
}

/// The number of successes is the number of positions holding a success:
/// running, pending, failed and cancelled jobs never count.
pub proof fn lemma_count_succeeded_positions(st: Seq<JobStatus>)
    ensures
        count_succeeded(st) == st.filter(|x: JobStatus| x is Succeeded).len(),
        count_succeeded(st) <= st.len(),
        (forall|k: int| 0 <= k < st.len() ==> !((#[trigger] st[k]) is Succeeded)) ==> count_succeeded(st) == 0,
    decreases st.len(),
{
    reveal_with_fuel(Seq::filter, 1);
    if st.len() > 0 {
        lemma_count_succeeded_positions(st.drop_last());
        if forall|k: int| 0 <= k < st.len() ==> !((#[trigger] st[k]) is Succeeded) {
            assert forall|k: int| 0 <= k < st.drop_last().len() implies !((#[trigger] st.drop_last()[k]) is Succeeded) by {
                assert(st.drop_last()[k] == st[k]);
            }
            assert(!(st[st.len() - 1] is Succeeded));
        }
    }
}

/// The state of a run is consistent: carried-over jobs have succeeded, every
/// job of this run that has left `Pending` had all its dependencies succeed,
/// and `in_flight` counts the running jobs.
pub open spec fn consistent(g: Seq<Seq<usize>>, pre: Seq<bool>, st: Seq<JobStatus>, in_flight: int) -> bool {
    &&& st.len() == g.len()
    &&& pre.len() == g.len()
    &&& forall|w: int| 0 <= w < g.len() && #[trigger] pre[w] ==> st[w] is Succeeded
    &&& forall|w: int|
        0 <= w < g.len() && !pre[w] && !(#[trigger] st[w] is Pending) ==> deps_succeeded(g[w], st)
    &&& in_flight == count_running(st)
}

/// No job lists the same dependency twice.
pub open spec fn distinct_deps(g: Seq<Seq<usize>>) -> bool {
    forall|i: int| 0 <= i < g.len() ==> (#[trigger] g[i]).no_duplicates()
}

/// Whether all of `deps` have succeeded.
fn all_deps_succeeded(deps: &Vec<usize>, st: &Vec<JobStatus>) -> (r: bool)
    requires
        forall|k: int| 0 <= k < deps@.len() ==> (#[trigger] deps@[k]) < st@.len(),
    ensures
        r == deps_succeeded(deps@, st@),
{
    let mut k: usize = 0;
    while k < deps.len()
        invariant
            forall|k2: int| 0 <= k2 < deps@.len() ==> (#[trigger] deps@[k2]) < st@.len(),
            0 <= k <= deps.len(),
            forall|k2: int| 0 <= k2 < k ==> #[trigger] status_of(st@, deps@[k2]) is Succeeded,
        decreases deps.len() - k,
    {
        if !st[deps[k]].is_succeeded() {
            assert(!(status_of(st@, deps@[k as int]) is Succeeded));
            return false;
        }
        k += 1;
    }
    true
}

impl SchedState {
    /// The state is consistent with `dag`.
    pub open spec fn consistent_with(&self, dag: &Dag) -> bool {
        consistent(graph(dag.deps@), self.pre_succeeded@, self.statuses@, self.in_flight as int)
    }

    /// Records the outcome `status` of job `job`. A failure stops the run:
    /// `None`, and the run is marked unsuccessful. Otherwise every dependent of
    /// `job` that is not carried over and whose dependencies have all succeeded
    /// is started, and the started jobs are returned in order.
    pub fn on_event(&mut self, dag: &Dag, job: usize, status: JobStatus) -> (r: Option<Vec<usize>>)
        requires
            dag.well_formed(),
            old(self).statuses@.len() == dag.jobs@.len(),
            old(self).pre_succeeded@.len() == dag.jobs@.len(),
            job < dag.jobs@.len(),
            old(self).in_flight > 0,
            old(self).in_flight - 1 + dag.dependents@[job as int]@.len() <= usize::MAX,
        ensures
            final(self).pre_succeeded@ == old(self).pre_succeeded@,
            final(self).extra_succeeded == old(self).extra_succeeded,
            status is Failed ==> {
                &&& r is None
                &&& final(self).statuses@ == old(self).statuses@.update(job as int, status)
                &&& final(self).in_flight == old(self).in_flight - 1
                &&& !final(self).success
            },
            !(status is Failed) ==> {
                let rel = release(
                    graph(dag.deps@),
                    old(self).pre_succeeded@,
                    old(self).statuses@.update(job as int, status),
                    dag.dependents@[job as int]@,
                );
                &&& r is Some
                &&& r.unwrap()@ == rel.1
                &&& final(self).statuses@ == rel.0
                &&& final(self).in_flight == old(self).in_flight - 1 + rel.1.len()
                &&& final(self).success == old(self).success
            },
    {
        let ghost g = graph(dag.deps@);
        let ghost pre = self.pre_succeeded@;
        let failed = match &status {
            JobStatus::Failed { .. } => true,
            _ => false,
        };
        self.statuses.set(job, status);
        self.in_flight = self.in_flight - 1;
        if failed {
            self.success = false;
            return None;
        }
        let ghost st1 = self.statuses@;
        let list = &dag.dependents[job];
        let ghost base_in_flight = self.in_flight;
        let ghost extra0 = self.extra_succeeded;
        let ghost success0 = self.success;
        let mut launches: Vec<usize> = Vec::new();
        let mut k: usize = 0;
        while k < list.len()
            invariant
                dag.well_formed(),
                g == graph(dag.deps@),
                pre == self.pre_succeeded@,
                pre.len() == dag.jobs@.len(),
                self.extra_succeeded == extra0,
                self.success == success0,
                self.statuses@.len() == dag.jobs@.len(),
                list@ == dag.dependents@[job as int]@,
                job < dag.jobs@.len(),
                0 <= k <= list.len(),
                (self.statuses@, launches@) == release(g, pre, st1, list@.take(k as int)),
                self.in_flight == base_in_flight + launches@.len(),
                launches@.len() <= k,
                base_in_flight + list@.len() <= usize::MAX,
            decreases list.len() - k,
        {
            let w = list[k];
            proof {
                assert(list@.take(k as int + 1).drop_last() =~= list@.take(k as int));
                assert(list@.take(k as int + 1).last() == w);
                assert(w < dag.jobs@.len());
                assert(dag.deps@[w as int]@ == g[w as int]);
            }
            if !self.pre_succeeded[w] && all_deps_succeeded(&dag.deps[w], &self.statuses) {
                self.statuses.set(w, JobStatus::Running);
                launches.push(w);
                self.in_flight = self.in_flight + 1;
            }
            k += 1;
        }
        proof {
            assert(list@.take(list@.len() as int) =~= list@);
        }
        Some(launches)
    }
}

/// Scanning a list of distinct jobs, each carried over or pending, from a
/// consistent state: the started jobs are distinct pending jobs of the list,
/// only they change (to `Running`), and dependencies of started jobs have
/// succeeded.
proof fn lemma_release(g: Seq<Seq<usize>>, pre: Seq<bool>, st: Seq<JobStatus>, list: Seq<usize>)
    requires
        g.len() <= usize::MAX,
        st.len() == g.len(),
        pre.len() == g.len(),
        forall|i: int, k: int| 0 <= i < g.len() && 0 <= k < g[i].len() ==> (#[trigger] g[i][k]) < g.len(),
        forall|k: int| 0 <= k < list.len() ==> (#[trigger] list[k]) < g.len(),
        list.no_duplicates(),
        forall|k: int| 0 <= k < list.len() ==> pre[#[trigger] list[k] as int] || st[list[k] as int] is Pending,
        forall|w: int| 0 <= w < g.len() && #[trigger] pre[w] ==> st[w] is Succeeded,
        forall|w: int|
            0 <= w < g.len() && !pre[w] && !(#[trigger] st[w] is Pending) ==> deps_succeeded(g[w], st),
    ensures
        ({
            let (st2, l) = release(g, pre, st, list);
            &&& st2.len() == st.len()
            &&& l.no_duplicates()
            &&& forall|j: int|
                0 <= j < l.len() ==> list.contains(#[trigger] l[j]) && !pre[l[j] as int] && st[l[j] as int] is Pending
            &&& forall|x: int| 0 <= x < st.len() ==> #[trigger] st2[x] == if l.contains(x as usize) {
                JobStatus::Running
            } else {
                st[x]
            }
            &&& forall|w: int| 0 <= w < g.len() && #[trigger] pre[w] ==> st2[w] is Succeeded
            &&& forall|w: int|
                0 <= w < g.len() && !pre[w] && !(#[trigger] st2[w] is Pending) ==> deps_succeeded(g[w], st2)
            &&& count_running(st2) == count_running(st) + l.len()
        }),
    decreases list.len(),
{
    if list.len() > 0 {
        let t = list.drop_last();
        assert(t.no_duplicates()) by {
            assert forall|i: int, j: int| 0 <= i < t.len() && 0 <= j < t.len() && i != j implies t[i]
                != t[j] by {
                assert(list[i] != list[j]);
            }
        }
        assert forall|k: int| 0 <= k < t.len() implies pre[#[trigger] t[k] as int] || st[t[k] as int] is Pending by {
            assert(t[k] == list[k]);
        }
        lemma_release(g, pre, st, t);
        let (st1, l1) = release(g, pre, st, t);
        let w = list.last();
        assert(list[list.len() - 1] == w);
        if !pre[w as int] && deps_succeeded(g[w as int], st1) {
            let st2 = st1.update(w as int, JobStatus::Running);
            let l = l1.push(w);
            assert(!l1.contains(w)) by {
                if l1.contains(w) {
                    let j = choose|j: int| 0 <= j < l1.len() && l1[j] == w;
                    assert(t.contains(l1[j]));
                    let k = choose|k: int| 0 <= k < t.len() && t[k] == w;
                    assert(list[k] == list[list.len() - 1]);
                }
            }
            assert(st1[w as int] == st[w as int]);
            assert(st[w as int] is Pending);
            assert forall|k: int| 0 <= k < g[w as int].len() implies g[w as int][k] != w by {
                assert(status_of(st1, g[w as int][k]) is Succeeded);
            }
            assert(l.no_duplicates()) by {
                assert forall|i: int, j: int| 0 <= i < l.len() && 0 <= j < l.len() && i != j implies l[i]
                    != l[j] by {
                    if i < l1.len() && j < l1.len() {
                        assert(l1[i] != l1[j]);
                    } else if i < l1.len() {
                        assert(l1.contains(l1[i]));
                    } else {
                        assert(l1.contains(l1[j]));
                    }
                }
            }
            assert forall|j: int|
                0 <= j < l.len() implies list.contains(#[trigger] l[j]) && !pre[l[j] as int] && st[l[j] as int] is Pending by {
                if j < l1.len() {
                    assert(l[j] == l1[j]);
                    assert(t.contains(l1[j]));
                    let k = choose|k: int| 0 <= k < t.len() && t[k] == l1[j];
                    assert(list[k] == t[k]);
                } else {
                    assert(l[j] == w);
                }
            }
            assert forall|x: int| 0 <= x < st.len() implies #[trigger] st2[x] == if l.contains(x as usize) {
                JobStatus::Running
            } else {
                st[x]
            } by {
                if x == w as int {
                    assert(l[l.len() - 1] == w);
                } else {
                    assert(st2[x] == st1[x]);
                    if l.contains(x as usize) {
                        let j = choose|j: int| 0 <= j < l.len() && l[j] == x as usize;
                        if j == l1.len() {
                            assert(l[j] == w);
                        }
                        assert(l[j] == l1[j]);
                        assert(l1.contains(x as usize));
                    }
                    if l1.contains(x as usize) {
                        let j = choose|j: int| 0 <= j < l1.len() && l1[j] == x as usize;
                        assert(l[j] == x as usize);
                    }
                }
            }
            assert forall|v: int|
                0 <= v < g.len() && !pre[v] && !(#[trigger] st2[v] is Pending) implies deps_succeeded(g[v], st2) by {
                if v == w as int {
                    assert forall|k: int| 0 <= k < g[v].len() implies #[trigger] status_of(st2, g[v][k]) is Succeeded by {
                        assert(status_of(st1, g[v][k]) is Succeeded);
                        assert(g[v][k] != w);
                    }
                } else {
                    assert(st2[v] == st1[v]);
                    assert(deps_succeeded(g[v], st1));
                    assert forall|k: int| 0 <= k < g[v].len() implies #[trigger] status_of(st2, g[v][k]) is Succeeded by {
                        assert(status_of(st1, g[v][k]) is Succeeded);
                        assert(g[v][k] != w);
                    }
                }
            }
            lemma_count_running_update(st1, w as int, JobStatus::Running);
        }
    }
}

/// Every job that is pending and not carried over waits on a dependency that
/// has not succeeded: no job that could start is left waiting.
pub open spec fn ready(g: Seq<Seq<usize>>, pre: Seq<bool>, st: Seq<JobStatus>) -> bool {
    forall|w: int| 0 <= w < g.len() && !pre[w] && (#[trigger] st[w]) is Pending ==> !deps_succeeded(g[w], st)
}

/// No job has failed or been cancelled.
pub open spec fn no_failure(st: Seq<JobStatus>) -> bool {
    forall|w: int| 0 <= w < st.len() ==> !((#[trigger] st[w]) is Failed) && !(st[w] is Cancelled)
}

/// Scanning a list only ever starts jobs, and every job of the list that is
/// not carried over is either started or still waits on a dependency.
proof fn lemma_release_covers(g: Seq<Seq<usize>>, pre: Seq<bool>, st: Seq<JobStatus>, list: Seq<usize>)
    requires
        st.len() == g.len(),
        pre.len() == g.len(),
        forall|i: int, k: int| 0 <= i < g.len() && 0 <= k < g[i].len() ==> (#[trigger] g[i][k]) < g.len(),
        forall|k: int| 0 <= k < list.len() ==> (#[trigger] list[k]) < g.len(),
    ensures
        ({
            let (st2, l) = release(g, pre, st, list);
            &&& st2.len() == st.len()
            &&& forall|x: int| 0 <= x < st.len() ==> (#[trigger] st2[x]) == st[x] || st2[x] is Running
            &&& forall|k: int|
                0 <= k < list.len() && !pre[list[k] as int] ==> l.contains(#[trigger] list[k]) || !deps_succeeded(
                    g[list[k] as int],
                    st2,
                )
        }),
    decreases list.len(),
{
    if list.len() > 0 {
        let t = list.drop_last();
        assert forall|k: int| 0 <= k < t.len() implies (#[trigger] t[k]) < g.len() by {
            assert(t[k] == list[k]);
        }
        lemma_release_covers(g, pre, st, t);
        let (st1, l1) = release(g, pre, st, t);
        let w = list.last();
        assert(list[list.len() - 1] == w);
        let (st2, l) = release(g, pre, st, list);
        // The last step starts at most `w`.
        assert forall|x: int| 0 <= x < st.len() implies (#[trigger] st2[x]) == st1[x] || st2[x] is Running by {}
        assert forall|k: int|
            0 <= k < list.len() && !pre[list[k] as int] implies l.contains(#[trigger] list[k]) || !deps_succeeded(
                g[list[k] as int],
                st2,
            ) by {
            let x = list[k];
            if k == list.len() - 1 {
                if l.len() > l1.len() {
                    assert(l[l.len() - 1] == w);
                }
            } else {
                assert(t[k] == x);
                if l1.contains(x) {
                    let j = choose|j: int| 0 <= j < l1.len() && l1[j] == x;
                    assert(l[j] == l1[j]);
                } else {
                    assert(!deps_succeeded(g[x as int], st1));
                    let kk = choose|kk: int| 0 <= kk < g[x as int].len() && !(#[trigger] status_of(st1, g[x as int][kk]) is Succeeded);
                    let d = g[x as int][kk];
                    assert(d < g.len());
                    assert(st2[d as int] == st1[d as int] || st2[d as int] is Running);
                    assert(!(status_of(st2, d) is Succeeded));
                }
            }
        }
    }
}

proof fn lemma_none_running(st: Seq<JobStatus>)
    requires
        count_running(st) == 0,
    ensures
        forall|w: int| 0 <= w < st.len() ==> !((#[trigger] st[w]) is Running),
    decreases st.len(),
{
    if st.len() > 0 {
        lemma_none_running(st.drop_last());
        assert forall|w: int| 0 <= w < st.len() implies !((#[trigger] st[w]) is Running) by {
            if w < st.len() - 1 {
                assert(st[w] == st.drop_last()[w]);
            }
        }
    }
}

/// Along a topological order, the jobs of a quiet run have all succeeded.
proof fn lemma_order_prefix_succeeded(
    g: Seq<Seq<usize>>,
    pre: Seq<bool>,
    st: Seq<JobStatus>,
    order: Seq<usize>,
    p: int,
)
    requires
        is_topo_order(g, order),
        0 <= p <= order.len(),
        consistent(g, pre, st, 0),
        ready(g, pre, st),
        no_failure(st),
        forall|w: int| 0 <= w < st.len() ==> !((#[trigger] st[w]) is Running),
    ensures
        forall|q: int| 0 <= q < p ==> (#[trigger] st[order[q] as int]) is Succeeded,
    decreases p,
{
    if p > 0 {
        lemma_order_prefix_succeeded(g, pre, st, order, p - 1);
        let j = order[p - 1] as int;
        assert(0 <= j < g.len());
        if !(st[j] is Succeeded) {
            assert(!(st[j] is Running) && !(st[j] is Failed) && !(st[j] is Cancelled));
            assert(st[j] is Pending);
            assert(!pre[j]);
            assert(!deps_succeeded(g[j], st));
            let k = choose|k: int| 0 <= k < g[j].len() && !(#[trigger] status_of(st, g[j][k]) is Succeeded);
            assert(deps_before(g, order, p - 1));
            assert(node_deps(g, order[p - 1]) == g[j]);
            assert(placed_before(order, p - 1, node_deps(g, order[p - 1])[k]));
            let q = choose|q: int| 0 <= q < p - 1 && order[q] == g[j][k];
            assert(st[order[q] as int] is Succeeded);
        }
    }
}

/// A run that no failure has stopped runs every job: once nothing is in
/// flight, every job has succeeded. Together with `SchedState::start`, which
/// sets up a ready run, and `lemma_event_keeps_consistent`, by which each
/// success keeps it ready, this is the whole of a run without failures.
pub proof fn lemma_quiet_run_completes(dag: Dag, pre: Seq<bool>, st: Seq<JobStatus>)
    requires
        dag.well_formed(),
        consistent(graph(dag.deps@), pre, st, 0),
        ready(graph(dag.deps@), pre, st),
        no_failure(st),
    ensures
        forall|j: int| 0 <= j < st.len() ==> (#[trigger] st[j]) is Succeeded,
{
    let g = graph(dag.deps@);
    let n = g.len();
    lemma_none_running(st);
    let order = choose|order: Seq<usize>| is_topo_order(g, order);
    lemma_order_prefix_succeeded(g, pre, st, order, order.len() as int);
    assert(dag.deps.len() == dag.deps@.len());
    assert(n <= usize::MAX);
    assert forall|i: int| 0 <= i < order.len() implies (#[trigger] order[i]) < n as usize by {
        assert(order[i] < g.len());
    }
    lemma_distinct_below(order, n as usize);
    assert forall|j: int| 0 <= j < st.len() implies (#[trigger] st[j]) is Succeeded by {
        assert(order.contains(j as usize));
        let q = choose|q: int| 0 <= q < order.len() && order[q] == j as usize;
        assert(st[order[q] as int] is Succeeded);
    }
}

/// Statuses and in-flight count after the outcomes `events` (job, status)
/// are reported in turn, as `SchedState::on_event` records them.
pub open spec fn after_events(
    dag: Dag,
    pre: Seq<bool>,
    st: Seq<JobStatus>,
    in_flight: int,
    events: Seq<(usize, JobStatus)>,
) -> (Seq<JobStatus>, int)
    decreases events.len(),
{
    if events.len() == 0 {
        (st, in_flight)
    } else {
        let before = after_events(dag, pre, st, in_flight, events.drop_last());
        let (job, status) = events.last();
        let s1 = before.0.update(job as int, status);
        if status is Failed {
            (s1, before.1 - 1)
        } else {
            let rel = release(graph(dag.deps@), pre, s1, dag.dependents@[job as int]@);
            (rel.0, before.1 - 1 + rel.1.len())
        }
    }
}

/// Every reported outcome is the success of a job that was running when it
/// was reported.
pub open spec fn successes_of_running(
    dag: Dag,
    pre: Seq<bool>,
    st: Seq<JobStatus>,
    in_flight: int,
    events: Seq<(usize, JobStatus)>,
) -> bool {
    forall|i: int|
        0 <= i < events.len() ==> {
            &&& (#[trigger] events[i]).1 is Succeeded
            &&& events[i].0 < dag.jobs@.len()
            &&& after_events(dag, pre, st, in_flight, events.take(i)).0[events[i].0 as int] is Running
        }
}

/// A whole run without failures, from a consistent and ready start (as
/// `SchedState::start` gives one when every carried-over status is a
/// success): after any sequence of successes of running jobs the run stays
/// consistent (every started job had all its dependencies succeed first, and
/// carried-over jobs are untouched) and ready, and once nothing is in flight
/// every job has run and succeeded.
pub proof fn lemma_run_of_successes(
    dag: Dag,
    pre: Seq<bool>,
    st: Seq<JobStatus>,
    in_flight: int,
    events: Seq<(usize, JobStatus)>,
)
    requires
        dag.well_formed(),
        distinct_deps(graph(dag.deps@)),
        consistent(graph(dag.deps@), pre, st, in_flight),
        ready(graph(dag.deps@), pre, st),
        no_failure(st),
        successes_of_running(dag, pre, st, in_flight, events),
    ensures
        ({
            let (s, f) = after_events(dag, pre, st, in_flight, events);
            &&& consistent(graph(dag.deps@), pre, s, f)
            &&& ready(graph(dag.deps@), pre, s)
            &&& no_failure(s)
            &&& f == 0 ==> forall|j: int| 0 <= j < s.len() ==> (#[trigger] s[j]) is Succeeded
        }),
    decreases events.len(),
{
    let g = graph(dag.deps@);
    if events.len() > 0 {
        let t = events.drop_last();
        assert forall|i: int| 0 <= i < t.len() implies {
            &&& (#[trigger] t[i]).1 is Succeeded
            &&& t[i].0 < dag.jobs@.len()
            &&& after_events(dag, pre, st, in_flight, t.take(i)).0[t[i].0 as int] is Running
        } by {
            assert(t[i] == events[i]);
            assert(t.take(i) =~= events.take(i));
        }
        lemma_run_of_successes(dag, pre, st, in_flight, t);
        let k = events.len() - 1;
        assert(events.take(k) =~= t);
        assert(events[k] == events.last());
        let (s0, f0) = after_events(dag, pre, st, in_flight, t);
        let (job, status) = events.last();
        assert(s0[job as int] is Running);
        lemma_event_keeps_consistent(dag, pre, s0, f0, job, status);
    }
    let (s, f) = after_events(dag, pre, st, in_flight, events);
    if f == 0 {
        lemma_quiet_run_completes(dag, pre, s);
    }
}

/// In a consistent run where no job lists a dependency twice, the outcome of
/// a running job, success or failure, leaves the run consistent; and every
/// job that a success starts was pending before and is started once, so no
/// job ever starts twice.
pub proof fn lemma_event_keeps_consistent(
    dag: Dag,
    pre: Seq<bool>,
    st: Seq<JobStatus>,
    in_flight: int,
    job: usize,
    status: JobStatus,
)
    requires
        dag.well_formed(),
        distinct_deps(graph(dag.deps@)),
        consistent(graph(dag.deps@), pre, st, in_flight),
        job < dag.jobs@.len(),
        st[job as int] is Running,
        status is Succeeded || status is Failed,
    ensures
        status is Failed ==> consistent(graph(dag.deps@), pre, st.update(job as int, status), in_flight - 1),
        status is Succeeded ==> ({
            let rel = release(graph(dag.deps@), pre, st.update(job as int, status), dag.dependents@[job as int]@);
            &&& consistent(graph(dag.deps@), pre, rel.0, in_flight - 1 + rel.1.len())
            &&& rel.1.no_duplicates()
            &&& forall|i: int| 0 <= i < rel.1.len() ==> st[(#[trigger] rel.1[i]) as int] is Pending
            &&& ready(graph(dag.deps@), pre, st) ==> ready(graph(dag.deps@), pre, rel.0)
            &&& no_failure(st) ==> no_failure(rel.0)
        }),
{
    let g = graph(dag.deps@);
    let n = g.len();
    let st1 = st.update(job as int, status);
    assert(!pre[job as int]);
    assert forall|i: int, k: int| 0 <= i < g.len() && 0 <= k < g[i].len() implies (#[trigger] g[i][k]) < g.len() by {
        assert(g[i] == dag.deps@[i]@);
    }
    // No started job depends on `job`, which has not succeeded yet.
    assert forall|w: int, k: int|
        0 <= w < n && !pre[w] && !(st[w] is Pending) && 0 <= k < g[w].len() implies #[trigger] g[w][k] != job by {
        assert(deps_succeeded(g[w], st));
        assert(status_of(st, g[w][k]) is Succeeded);
    }
    assert forall|w: int| 0 <= w < n && #[trigger] pre[w] implies st1[w] is Succeeded by {}
    assert forall|w: int|
        0 <= w < n && !pre[w] && !(#[trigger] st1[w] is Pending) implies deps_succeeded(g[w], st1) by {
        assert(!(st[w] is Pending));
        assert forall|k: int| 0 <= k < g[w].len() implies #[trigger] status_of(st1, g[w][k]) is Succeeded by {
            assert(deps_succeeded(g[w], st));
            assert(status_of(st, g[w][k]) is Succeeded);
            assert(g[w][k] != job);
        }
    }
    lemma_count_running_update(st, job as int, status);
    if status is Succeeded {
        let list = dag.dependents@[job as int]@;
        assert forall|x: usize| #[trigger] count_in(list, x) <= 1 by {
            if x < n {
                assert(g[x as int] == dag.deps@[x as int]@);
                lemma_no_dup_count(g[x as int], job);
            } else if count_in(list, x) > 0 {
                lemma_count_pos(list, x);
            }
        }
        lemma_count_no_dup(list);
        assert forall|k: int| 0 <= k < list.len() implies pre[#[trigger] list[k] as int] || st1[list[k] as int] is Pending by {
            let w = list[k];
            assert(w < n);
            lemma_count_at(list, k);
            assert(count_in(list, w) == count_in(g[w as int], job));
            lemma_count_pos(g[w as int], job);
            let kk = choose|kk: int| 0 <= kk < g[w as int].len() && g[w as int][kk] == job;
            if !pre[w as int] && !(st1[w as int] is Pending) {
                assert(deps_succeeded(g[w as int], st1));
                assert(status_of(st1, g[w as int][kk]) is Succeeded);
                if w != job {
                    assert(!(st[w as int] is Pending));
                    assert(g[w as int][kk] != job);
                } else {
                    assert(deps_succeeded(g[job as int], st));
                    assert(status_of(st, g[job as int][kk]) is Succeeded);
                }
            }
        }
        assert forall|k: int| 0 <= k < list.len() implies (#[trigger] list[k]) < g.len() by {}
        assert(dag.deps.len() == dag.deps@.len());
        lemma_release(g, pre, st1, list);
        lemma_release_covers(g, pre, st1, list);
        let rel = release(g, pre, st1, list);
        let st2 = rel.0;
        assert forall|i: int| 0 <= i < rel.1.len() implies st[(#[trigger] rel.1[i]) as int] is Pending by {
            assert(st1[rel.1[i] as int] is Pending);
        }
        if no_failure(st) {
            assert forall|w: int| 0 <= w < st2.len() implies !((#[trigger] st2[w]) is Failed) && !(st2[w] is Cancelled) by {
                assert(st2[w] == st1[w] || st2[w] is Running);
                if w != job as int {
                    assert(st1[w] == st[w]);
                }
            }
        }
        if ready(g, pre, st) {
            assert forall|w: int| 0 <= w < g.len() && !pre[w] && (#[trigger] st2[w]) is Pending implies !deps_succeeded(
                g[w],
                st2,
            ) by {
                assert(st2[w] == if rel.1.contains(w as usize) {
                    JobStatus::Running
                } else {
                    st1[w]
                });
                assert(!rel.1.contains(w as usize));
                assert(w != job as int);
                assert(st1[w] == st[w]);
                assert(!deps_succeeded(g[w], st));
                let kk = choose|kk: int| 0 <= kk < g[w].len() && !(#[trigger] status_of(st, g[w][kk]) is Succeeded);
                let d = g[w][kk];
                if deps_succeeded(g[w], st2) {
                    assert(status_of(st2, d) is Succeeded);
                    assert(d < n);
                    assert(st2[d as int] == st1[d as int] || st2[d as int] is Running);
                    assert(d == job);
                    // `w` depends on `job`, so it is among the dependents scanned.
                    assert(g[w] == dag.deps@[w]@);
                    lemma_count_at(g[w], kk);
                    assert(count_in(list, w as usize) == count_in(g[w], job));
                    lemma_count_pos(list, w as usize);
                    let k = choose|k: int| 0 <= k < list.len() && list[k] == w as usize;
                    assert(rel.1.contains(list[k]) || !deps_succeeded(g[list[k] as int], st2));
                }
            }
        }
    }
}

/// Indices `i < n` with `p(i)`, in increasing order.
pub open spec fn idx_filter(n: int, p: spec_fn(int) -> bool) -> Seq<usize>
    decreases n,
{
    if n <= 0 {
        Seq::empty()
    } else {
        idx_filter(n - 1, p) + if p(n - 1) {
            seq![(n - 1) as usize]
        } else {
            Seq::empty()
        }
    }
}

/// The positions kept by a filter are exactly those below `n` that satisfy
/// `p`, each once, in increasing order.
pub proof fn lemma_idx_filter(n: int, p: spec_fn(int) -> bool)
    requires
        0 <= n <= usize::MAX,
    ensures
        forall|k: int| 0 <= k < idx_filter(n, p).len() ==> (#[trigger] idx_filter(n, p)[k]) < n && p(idx_filter(n, p)[k] as int),
        forall|a: int, b: int|
            0 <= a < b < idx_filter(n, p).len() ==> idx_filter(n, p)[a] < idx_filter(n, p)[b],
        forall|x: int| 0 <= x < n ==> (idx_filter(n, p).contains(x as usize) <==> #[trigger] p(x)),
        idx_filter(n, p).no_duplicates(),
        idx_filter(n, p).len() <= n,
    decreases n,
{
    if n > 0 {
        lemma_idx_filter(n - 1, p);
        let s0 = idx_filter(n - 1, p);
        let s = idx_filter(n, p);
        assert forall|x: int| 0 <= x < n implies (s.contains(x as usize) <==> #[trigger] p(x)) by {
            if s.contains(x as usize) {
                let k = choose|k: int| 0 <= k < s.len() && s[k] == x as usize;
                if k < s0.len() {
                    assert(s0[k] == s[k]);
                }
            }
            if p(x) {
                if x < n - 1 {
                    assert(s0.contains(x as usize));
                    let k = choose|k: int| 0 <= k < s0.len() && s0[k] == x as usize;
                    assert(s[k] == s0[k]);
                } else {
                    assert(s[s.len() - 1] == (n - 1) as usize);
                }
            }
        }
        assert forall|k: int| 0 <= k < s.len() implies (#[trigger] s[k]) < n && p(s[k] as int) by {
            if k < s0.len() {
                assert(s[k] == s0[k]);
            }
        }
        assert forall|a: int, b: int| 0 <= a < b < s.len() implies s[a] < s[b] by {
            if b < s0.len() {
                assert(s[a] == s0[a] && s[b] == s0[b]);
            } else {
                assert(s[a] == s0[a]);
            }
        }
    }
}

/// The ids of `(id, status)` pairs.
pub open spec fn pre_names(pre: Seq<(String, JobStatus)>) -> Seq<Seq<char>> {
    pre.map_values(|e: (String, JobStatus)| e.0@)
}

/// Whether job `i` is carried over from an earlier run.
pub open spec fn carried(jobs: Seq<Seq<char>>, pre: Seq<(String, JobStatus)>, i: int) -> bool {
    index_of(pre_names(pre), jobs[i]) < pre.len()
}

/// The status job `i` starts a run with: its carried-over status, or pending.
pub open spec fn start_status(jobs: Seq<Seq<char>>, pre: Seq<(String, JobStatus)>, i: int) -> JobStatus {
    if carried(jobs, pre, i) {
        pre[index_of(pre_names(pre), jobs[i])].1
    } else {
        JobStatus::Pending
    }
}

/// Carried-over succeeded entries among the first `k` that name no job.
pub open spec fn extra_count(jobs: Seq<Seq<char>>, pre: Seq<(String, JobStatus)>, k: int) -> nat
    decreases k,
{
    if k <= 0 {
        0
    } else {
        extra_count(jobs, pre, k - 1) + if !names_job(jobs, pre[k - 1].0@) && pre[k - 1].1 is Succeeded {
            1nat
        } else {
            0nat
        }
    }
}

/// The carried-over flags of the jobs.
pub open spec fn carried_flags(jobs: Seq<Seq<char>>, pre: Seq<(String, JobStatus)>) -> Seq<bool> {
    Seq::new(jobs.len(), |i: int| carried(jobs, pre, i))
}

/// Roots that are not carried over.
pub open spec fn first_launch_roots(g: Seq<Seq<usize>>, flags: Seq<bool>) -> Seq<usize> {
    idx_filter(g.len() as int, |i: int| g[i].len() == 0 && !flags[i])
}

/// Other jobs, not carried over, all of whose dependencies are carried over.
pub open spec fn first_launch_unlocked(g: Seq<Seq<usize>>, flags: Seq<bool>) -> Seq<usize> {
    idx_filter(
        g.len() as int,
        |i: int|
            g[i].len() != 0 && !flags[i] && forall|k: int|
                0 <= k < g[i].len() ==> flags[(#[trigger] g[i][k]) as int],
    )
}

/// The first statuses of a run leave no job that could start waiting, and
/// hold no failure when every carried-over status is a success.
proof fn lemma_start_ready(
    g: Seq<Seq<usize>>,
    jobs: Seq<Seq<char>>,
    pre: Seq<(String, JobStatus)>,
    launches: Seq<usize>,
    st: Seq<JobStatus>,
)
    requires
        g.len() == jobs.len(),
        st.len() == jobs.len(),
        g.len() <= usize::MAX,
        forall|i: int, k: int| 0 <= i < g.len() && 0 <= k < g[i].len() ==> (#[trigger] g[i][k]) < g.len(),
        launches == first_launch_roots(g, carried_flags(jobs, pre)) + first_launch_unlocked(
            g,
            carried_flags(jobs, pre),
        ),
        forall|i: int| 0 <= i < jobs.len() ==> #[trigger] st[i] == if launches.contains(i as usize) {
            JobStatus::Running
        } else {
            start_status(jobs, pre, i)
        },
    ensures
        ready(g, carried_flags(jobs, pre), st),
        (forall|k: int| 0 <= k < pre.len() ==> (#[trigger] pre[k]).1 is Succeeded) ==> no_failure(st),
{
    let flags = carried_flags(jobs, pre);
    let n = g.len() as int;
    let p1 = |i: int| g[i].len() == 0 && !flags[i];
    let p2 = |i: int|
        g[i].len() != 0 && !flags[i] && forall|k: int| 0 <= k < g[i].len() ==> flags[(#[trigger] g[i][k]) as int];
    let l1 = idx_filter(n, p1);
    let l2 = idx_filter(n, p2);
    assert(first_launch_roots(g, flags) == l1);
    assert(first_launch_unlocked(g, flags) == l2);
    lemma_idx_filter(n, p1);
    lemma_idx_filter(n, p2);
    assert forall|w: int| 0 <= w < g.len() && !flags[w] && (#[trigger] st[w]) is Pending implies !deps_succeeded(
        g[w],
        st,
    ) by {
        if launches.contains(w as usize) {
            assert(st[w] is Running);
        }
        if deps_succeeded(g[w], st) {
            if g[w].len() == 0 {
                assert(p1(w));
                assert(l1.contains(w as usize));
                let j = choose|j: int| 0 <= j < l1.len() && l1[j] == w as usize;
                assert(launches[j] == w as usize);
            } else {
                assert forall|k: int| 0 <= k < g[w].len() implies flags[(#[trigger] g[w][k]) as int] by {
                    let d = g[w][k];
                    assert(status_of(st, d) is Succeeded);
                    assert(d < n);
                    if launches.contains(d) {
                        assert(st[d as int] is Running);
                    }
                    assert(st[d as int] == start_status(jobs, pre, d as int));
                    assert(flags[d as int] == carried(jobs, pre, d as int));
                }
                assert(p2(w));
                assert(l2.contains(w as usize));
                let j = choose|j: int| 0 <= j < l2.len() && l2[j] == w as usize;
                assert(launches[l1.len() + j] == w as usize);
            }
        }
    }
    if forall|k: int| 0 <= k < pre.len() ==> (#[trigger] pre[k]).1 is Succeeded {
        assert forall|w: int| 0 <= w < st.len() implies !((#[trigger] st[w]) is Failed) && !(st[w] is Cancelled) by {
            if !launches.contains(w as usize) && carried(jobs, pre, w) {
                let kk = index_of(pre_names(pre), jobs[w]);
                assert(pre[kk].1 is Succeeded);
            }
        }
    }
}

/// Position of the entry of `pre` with id `name`, or `pre.len()`.
fn find_pre(pre: &Vec<(String, JobStatus)>, name: &String) -> (r: usize)
    requires
        pre_names(pre@).no_duplicates(),
    ensures
        r == index_of(pre_names(pre@), name@),
{
    let ghost v = pre_names(pre@);
    let mut i: usize = 0;
    while i < pre.len()
        invariant
            v == pre_names(pre@),
            v.no_duplicates(),
            0 <= i <= pre.len(),
            forall|j: int| 0 <= j < i ==> v[j] != name@,
        decreases pre.len() - i,
    {
        if pre[i].0 == *name {
            proof {
                assert(v[i as int] == name@);
                assert(names_job(v, name@));
                let j = choose|j: int| 0 <= j < v.len() && v[j] == name@;
                assert(j == i);
            }
            return i;
        }
        i += 1;
    }
    proof {
        if names_job(v, name@) {
            let j = choose|j: int| 0 <= j < v.len() && v[j] == name@;
        }
    }
    pre.len()
}

/// Whether every job of `deps` is flagged.
fn all_flagged(deps: &Vec<usize>, flags: &Vec<bool>) -> (r: bool)
    requires
        forall|k: int| 0 <= k < deps@.len() ==> (#[trigger] deps@[k]) < flags@.len(),
    ensures
        r == (forall|k: int| 0 <= k < deps@.len() ==> flags@[(#[trigger] deps@[k]) as int]),
{
    let mut k: usize = 0;
    while k < deps.len()
        invariant
            forall|k2: int| 0 <= k2 < deps@.len() ==> (#[trigger] deps@[k2]) < flags@.len(),
            0 <= k <= deps.len(),
            forall|k2: int| 0 <= k2 < k ==> flags@[(#[trigger] deps@[k2]) as int],
        decreases deps.len() - k,
    {
        if !flags[deps[k]] {
            return false;
        }
        k += 1;
    }
    true
}

impl SchedState {
    /// Starts a run of `dag`. `pre` holds the jobs carried over from an
    /// earlier run with their statuses; they keep those statuses and are not
    /// run again. Started first: the roots that are not carried over, then the
    /// other jobs that are not carried over and depend only on carried-over
    /// jobs, each group in workflow order. When every carried-over status is a
    /// success, the new run is consistent.
    pub fn start(dag: &Dag, pre: &Vec<(String, JobStatus)>) -> (r: (SchedState, Vec<usize>))
        requires
            dag.well_formed(),
            pre_names(pre@).no_duplicates(),
            dag.jobs@.len() + pre@.len() <= usize::MAX,
        ensures
            ({
                let jobs = str_views(dag.jobs@);
                let g = graph(dag.deps@);
                let flags = carried_flags(jobs, pre@);
                let (st, launches) = r;
                &&& st.pre_succeeded@ == flags
                &&& launches@ == first_launch_roots(g, flags) + first_launch_unlocked(g, flags)
                &&& st.statuses@.len() == jobs.len()
                &&& forall|i: int| 0 <= i < jobs.len() ==> #[trigger] st.statuses@[i] == if launches@.contains(i as usize) {
                    JobStatus::Running
                } else {
                    start_status(jobs, pre@, i)
                }
                &&& st.in_flight == launches@.len()
                &&& st.success
                &&& st.extra_succeeded == extra_count(jobs, pre@, pre@.len() as int)
                &&& (forall|k: int| 0 <= k < pre@.len() ==> (#[trigger] pre@[k]).1 is Succeeded) ==> consistent(
                    g,
                    flags,
                    st.statuses@,
                    st.in_flight as int,
                )
                &&& ready(g, flags, st.statuses@)
                &&& (forall|k: int| 0 <= k < pre@.len() ==> (#[trigger] pre@[k]).1 is Succeeded) ==> no_failure(
                    st.statuses@,
                )
            }),
    {
        let ghost jobs = str_views(dag.jobs@);
        let ghost g = graph(dag.deps@);
        let ghost flags_s = carried_flags(jobs, pre@);
        let ghost all_ok = forall|k: int| 0 <= k < pre@.len() ==> (#[trigger] pre@[k]).1 is Succeeded;
        let n = dag.jobs.len();
        let mut statuses: Vec<JobStatus> = Vec::new();
        let mut flags: Vec<bool> = Vec::new();
        let mut i: usize = 0;
        while i < n
            invariant
                n == dag.jobs@.len(),
                jobs == str_views(dag.jobs@),
                flags_s == carried_flags(jobs, pre@),
                pre_names(pre@).no_duplicates(),
                all_ok == forall|k: int| 0 <= k < pre@.len() ==> (#[trigger] pre@[k]).1 is Succeeded,
                0 <= i <= n,
                statuses@.len() == i,
                flags@ == flags_s.take(i as int),
                forall|x: int| 0 <= x < i ==> #[trigger] statuses@[x] == start_status(jobs, pre@, x),
                all_ok ==> count_running(statuses@) == 0,
            decreases n - i,
        {
            let k = find_pre(pre, &dag.jobs[i]);
            let ghost old_st = statuses@;
            let ghost old_flags = flags@;
            if k < pre.len() {
                statuses.push(pre[k].1.clone());
                flags.push(true);
            } else {
                statuses.push(JobStatus::Pending);
                flags.push(false);
            }
            proof {
                assert(jobs[i as int] == dag.jobs@[i as int]@);
                assert(statuses@.drop_last() =~= old_st);
                assert(flags@ =~= flags_s.take(i as int + 1));
                assert forall|x: int| 0 <= x < i + 1 implies #[trigger] statuses@[x] == start_status(jobs, pre@, x) by {
                    if x < i {
                        assert(statuses@[x] == old_st[x]);
                    }
                }
            }
            i += 1;
        }
        proof {
            assert(flags@ =~= flags_s);
        }
        let mut extra: usize = 0;
        let mut k: usize = 0;
        while k < pre.len()
            invariant
                n == dag.jobs@.len(),
                jobs == str_views(dag.jobs@),
                str_views(dag.jobs@).no_duplicates(),
                n + pre@.len() <= usize::MAX,
                0 <= k <= pre.len(),
                extra == extra_count(jobs, pre@, k as int),
                extra <= k,
            decreases pre.len() - k,
        {
            let is_extra = pre[k].1.is_succeeded() && find_job(&dag.jobs, &pre[k].0) == n;
            proof {
                let nm = pre@[k as int].0@;
                if names_job(jobs, nm) {
                    let j = choose|j: int| 0 <= j < jobs.len() && jobs[j] == nm;
                    assert(index_of(jobs, nm) < n) by {
                        assert(index_of(jobs, nm) == choose|j: int| 0 <= j < jobs.len() && jobs[j] == nm);
                    }
                }
            }
            if is_extra {
                extra += 1;
            }
            k += 1;
        }

        let mut launches: Vec<usize> = Vec::new();
        let mut in_flight: usize = 0;
        let ghost base = statuses@;
        let ghost p1 = |i: int| g[i].len() == 0 && !flags_s[i];
        let ghost p2 = |i: int|
            g[i].len() != 0 && !flags_s[i] && forall|k: int|
                0 <= k < g[i].len() ==> flags_s[(#[trigger] g[i][k]) as int];
        proof {
            lemma_idx_filter(n as int, p1);
            lemma_idx_filter(n as int, p2);
        }
        let mut i: usize = 0;
        while i < n
            invariant
                dag.well_formed(),
                n == dag.jobs@.len(),
                g == graph(dag.deps@),
                flags@ == flags_s,
                flags_s.len() == n,
                0 <= i <= n,
                statuses@.len() == n,
                launches@ == idx_filter(i as int, p1),
                p1 == (|i: int| g[i].len() == 0 && !flags_s[i]),
                in_flight == launches@.len(),
                in_flight <= i,
                forall|x: int| 0 <= x < n ==> #[trigger] statuses@[x] == if launches@.contains(x as usize) {
                    JobStatus::Running
                } else {
                    base[x]
                },
                forall|x: int| 0 <= x < n && !flags_s[x] ==> base[x] is Pending,
                all_ok ==> count_running(statuses@) == in_flight,
            decreases n - i,
        {
            proof {
                lemma_idx_filter(i as int, p1);
                assert(dag.deps@[i as int]@ == g[i as int]);
            }
            let ghost old_st = statuses@;
            let ghost old_l = launches@;
            if dag.deps[i].len() == 0 && !flags[i] {
                proof {
                    assert(!old_l.contains(i));
                    lemma_count_running_update(old_st, i as int, JobStatus::Running);
                }
                statuses.set(i, JobStatus::Running);
                launches.push(i);
                in_flight += 1;
            }
            proof {
                assert(p1(i as int) == (dag.deps@[i as int]@.len() == 0 && !flags@[i as int]));
                assert(idx_filter(i as int + 1, p1) == idx_filter(i as int, p1) + if p1(i as int) {
                    seq![i]
                } else {
                    Seq::empty()
                });
                assert(launches@ =~= idx_filter(i as int + 1, p1));
                assert forall|x: int| 0 <= x < n implies #[trigger] statuses@[x] == if launches@.contains(x as usize) {
                    JobStatus::Running
                } else {
                    base[x]
                } by {
                    if x != i as int {
                        if launches@.contains(x as usize) && !old_l.contains(x as usize) {
                            let j = choose|j: int| 0 <= j < launches@.len() && launches@[j] == x as usize;
                            assert(j >= old_l.len() ==> launches@[j] == i);
                            assert(launches@[j] == old_l[j]);
                        }
                        if old_l.contains(x as usize) {
                            let j = choose|j: int| 0 <= j < old_l.len() && old_l[j] == x as usize;
                            assert(launches@[j] == x as usize);
                        }
                    } else if launches@.len() > old_l.len() {
                        assert(launches@[old_l.len() as int] == i);
                    } else {
                        if launches@.contains(i) {
                            let j = choose|j: int| 0 <= j < launches@.len() && launches@[j] == i;
                            assert(old_l[j] == i);
                        }
                    }
                }
            }
            i += 1;
        }
        let ghost l1 = launches@;
        proof {
            lemma_idx_filter(n as int, p1);
            assert(l1 =~= l1 + idx_filter(0, p2));
        }
        let mut i: usize = 0;
        while i < n
            invariant
                dag.well_formed(),
                n == dag.jobs@.len(),
                g == graph(dag.deps@),
                flags@ == flags_s,
                flags_s.len() == n,
                0 <= i <= n,
                statuses@.len() == n,
                l1 == idx_filter(n as int, p1),
                p1 == (|i: int| g[i].len() == 0 && !flags_s[i]),
                p2 == (|i: int|
                    g[i].len() != 0 && !flags_s[i] && forall|k: int|
                        0 <= k < g[i].len() ==> flags_s[(#[trigger] g[i][k]) as int]),
                launches@ == l1 + idx_filter(i as int, p2),
                in_flight == launches@.len(),
                launches@.no_duplicates(),
                forall|j: int| 0 <= j < launches@.len() ==> (#[trigger] launches@[j]) < n,
                forall|x: int| 0 <= x < n ==> #[trigger] statuses@[x] == if launches@.contains(x as usize) {
                    JobStatus::Running
                } else {
                    base[x]
                },
                forall|x: int| 0 <= x < n && !flags_s[x] ==> base[x] is Pending,
                all_ok ==> count_running(statuses@) == in_flight,
            decreases n - i,
        {
            proof {
                lemma_idx_filter(i as int, p2);
                lemma_idx_filter(n as int, p1);
                lemma_distinct_below(launches@, n);
                assert(dag.deps@[i as int]@ == g[i as int]);
                assert forall|k: int| 0 <= k < dag.deps@[i as int]@.len() implies (#[trigger] dag.deps@[i as int]@[k]) < flags@.len() by {}
            }
            let ghost old_st = statuses@;
            let ghost old_l = launches@;
            if !flags[i] && dag.deps[i].len() != 0 && all_flagged(&dag.deps[i], &flags) {
                proof {
                    assert(p2(i as int));
                    assert(!p1(i as int));
                    assert(!old_l.contains(i)) by {
                        if old_l.contains(i) {
                            let j = choose|j: int| 0 <= j < old_l.len() && old_l[j] == i;
                            if j < l1.len() {
                                assert(l1[j] == i);
                                assert(l1.contains(i));
                            } else {
                                assert(idx_filter(i as int, p2)[j - l1.len()] == i);
                            }
                        }
                    }
                    lemma_count_running_update(old_st, i as int, JobStatus::Running);
                    if old_l.len() == n {
                        assert(old_l.contains(i));
                    }
                }
                statuses.set(i, JobStatus::Running);
                launches.push(i);
                in_flight += 1;
                proof {
                    assert forall|a: int, b: int| 0 <= a < launches@.len() && 0 <= b < launches@.len() && a != b implies launches@[a] != launches@[b] by {
                        if a < old_l.len() && b < old_l.len() {
                            assert(old_l[a] != old_l[b]);
                        } else if a < old_l.len() {
                            assert(old_l.contains(old_l[a]));
                        } else {
                            assert(old_l.contains(old_l[b]));
                        }
                    }
                }
            }
            proof {
                assert(idx_filter(i as int + 1, p2) == idx_filter(i as int, p2) + if p2(i as int) {
                    seq![i]
                } else {
                    Seq::empty()
                });
                assert(launches@ =~= l1 + idx_filter(i as int + 1, p2));
                assert forall|x: int| 0 <= x < n implies #[trigger] statuses@[x] == if launches@.contains(x as usize) {
                    JobStatus::Running
                } else {
                    base[x]
                } by {
                    if x != i as int {
                        if launches@.contains(x as usize) && !old_l.contains(x as usize) {
                            let j = choose|j: int| 0 <= j < launches@.len() && launches@[j] == x as usize;
                            assert(j >= old_l.len() ==> launches@[j] == i);
                            assert(launches@[j] == old_l[j]);
                        }
                        if old_l.contains(x as usize) {
                            let j = choose|j: int| 0 <= j < old_l.len() && old_l[j] == x as usize;
                            assert(launches@[j] == x as usize);
                        }
                    } else if launches@.len() > old_l.len() {
                        assert(launches@[old_l.len() as int] == i);
                    } else {
                        if launches@.contains(i) {
                            let j = choose|j: int| 0 <= j < launches@.len() && launches@[j] == i;
                            assert(old_l[j] == i);
                        }
                    }
                }
            }
            i += 1;
        }
        proof {
            assert(launches@ =~= first_launch_roots(g, flags_s) + first_launch_unlocked(g, flags_s));
            if all_ok {
                assert forall|w: int| 0 <= w < g.len() && #[trigger] flags_s[w] implies statuses@[w] is Succeeded by {
                    assert(carried(jobs, pre@, w));
                    let kk = index_of(pre_names(pre@), jobs[w]);
                    assert(pre@[kk].1 is Succeeded);
                    if launches@.contains(w as usize) {
                        let j = choose|j: int| 0 <= j < launches@.len() && launches@[j] == w as usize;
                        if j < l1.len() {
                            assert(p1(l1[j] as int));
                        } else {
                            assert(p2(idx_filter(n as int, p2)[j - l1.len()] as int));
                        }
                    }
                }
                assert forall|w: int|
                    0 <= w < g.len() && !flags_s[w] && !(#[trigger] statuses@[w] is Pending) implies deps_succeeded(g[w], statuses@) by {
                    assert(launches@.contains(w as usize));
                    let j = choose|j: int| 0 <= j < launches@.len() && launches@[j] == w as usize;
                    if j < l1.len() {
                        assert(p1(l1[j] as int));
                    } else {
                        assert(p2(idx_filter(n as int, p2)[j - l1.len()] as int));
                        assert forall|k: int| 0 <= k < g[w].len() implies #[trigger] status_of(statuses@, g[w][k]) is Succeeded by {
                            let d = g[w][k] as int;
                            assert(flags_s[d]);
                            assert(dag.deps@[w]@ == g[w]);
                            assert(d < n);
                            assert(carried(jobs, pre@, d));
                            let kk = index_of(pre_names(pre@), jobs[d]);
                            assert(pre@[kk].1 is Succeeded);
                            if launches@.contains(d as usize) {
                                let j2 = choose|j2: int| 0 <= j2 < launches@.len() && launches@[j2] == d as usize;
                                if j2 < l1.len() {
                                    assert(p1(l1[j2] as int));
                                } else {
                                    assert(p2(idx_filter(n as int, p2)[j2 - l1.len()] as int));
                                }
                            }
                        }
                    }
                }
            }
        }
        proof {
            assert forall|i: int, k: int| 0 <= i < g.len() && 0 <= k < g[i].len() implies (#[trigger] g[i][k]) < g.len() by {
                assert(g[i] == dag.deps@[i]@);
            }
            assert forall|i: int| 0 <= i < jobs.len() implies #[trigger] statuses@[i] == if launches@.contains(i as usize) {
                JobStatus::Running
            } else {
                start_status(jobs, pre@, i)
            } by {
                assert(base[i] == start_status(jobs, pre@, i));
            }
            lemma_start_ready(g, jobs, pre@, launches@, statuses@);
        }
        let st = SchedState {
            statuses,
            pre_succeeded: flags,
            extra_succeeded: extra,
            in_flight,
            success: true,
        };
        (st, launches)
    }
}

/// `path` is a chain of jobs in which each job depends on the one before it.
pub open spec fn is_chain(g: Seq<Seq<usize>>, path: Seq<usize>) -> bool {
    &&& path.len() >= 1
    &&& forall|t: int| 0 <= t < path.len() ==> (#[trigger] path[t]) < g.len()
    &&& forall|t: int| 0 <= t < path.len() - 1 ==> g[path[t + 1] as int].contains(#[trigger] path[t])
}

/// Job `j` is `s` or depends on `s`, directly or through other jobs.
pub open spec fn downstream(g: Seq<Seq<usize>>, s: usize, j: usize) -> bool {
    exists|path: Seq<usize>| is_chain(g, path) && path[0] == s && path.last() == j
}

/// Number of `false` entries.
pub open spec fn count_false(v: Seq<bool>) -> nat
    decreases v.len(),
{
    if v.len() == 0 {
        0
    } else {
        count_false(v.drop_last()) + if v.last() {
            0nat
        } else {
            1nat
        }
    }
}

proof fn lemma_count_false_set(v: Seq<bool>, i: int)
    requires
        0 <= i < v.len(),
        !v[i],
    ensures
        count_false(v.update(i, true)) + 1 == count_false(v),
    decreases v.len(),
{
    if i < v.len() - 1 {
        lemma_count_false_set(v.drop_last(), i);
        assert(v.update(i, true).drop_last() =~= v.drop_last().update(i, true));
    } else {
        assert(v.update(i, true).drop_last() =~= v.drop_last());
    }
}

/// A set of jobs that holds `s` and every dependent of each of its jobs
/// holds everything downstream of `s`.
proof fn lemma_closed_holds_downstream(dag: Dag, vis: Seq<bool>, s: usize, path: Seq<usize>, m: int)
    requires
        dag.well_formed(),
        vis.len() == dag.jobs@.len(),
        s < vis.len(),
        vis[s as int],
        forall|x: int, w: usize|
            0 <= x < vis.len() && #[trigger] vis[x] && #[trigger] dag.dependents@[x]@.contains(w) ==> vis[w as int],
        is_chain(graph(dag.deps@), path),
        path[0] == s,
        0 <= m < path.len(),
    ensures
        vis[path[m] as int],
    decreases m,
{
    if m > 0 {
        lemma_closed_holds_downstream(dag, vis, s, path, m - 1);
        let g = graph(dag.deps@);
        let x = path[m - 1];
        let w = path[m];
        assert(g[w as int].contains(x));
        let k = choose|k: int| 0 <= k < g[w as int].len() && g[w as int][k] == x;
        assert(g[w as int] == dag.deps@[w as int]@);
        lemma_count_at(g[w as int], k);
        assert(count_in(dag.dependents@[x as int]@, w) == count_in(dag.deps@[w as int]@, x));
        lemma_count_pos(dag.dependents@[x as int]@, w);
        let q = choose|q: int| 0 <= q < dag.dependents@[x as int]@.len() && dag.dependents@[x as int]@[q] == w;
        assert(dag.dependents@[x as int]@.contains(w));
    }
}

/// Reachability from `s` along dependents: `s` reaches itself; whatever
/// depends on a reached job is reached; and nothing else is, for every
/// reached job lies in any set that holds `s` and the dependents of its members.
pub proof fn lemma_downstream_closure(g: Seq<Seq<usize>>, s: usize)
    requires
        s < g.len(),
        g.len() <= usize::MAX,
    ensures
        downstream(g, s, s),
        forall|i: int, k: int|
            0 <= i < g.len() && 0 <= k < g[i].len() && (#[trigger] g[i][k]) < g.len() && downstream(g, s, g[i][k])
                ==> downstream(g, s, i as usize),
        forall|set: Set<usize>|
            #![trigger set.contains(s)]
            set.contains(s) && (forall|i: int, k: int|
                0 <= i < g.len() && 0 <= k < g[i].len() && set.contains(#[trigger] g[i][k]) ==> set.contains(
                    i as usize,
                )) ==> forall|j: usize| j < g.len() && #[trigger] downstream(g, s, j) ==> set.contains(j),
{
    let p0 = seq![s];
    assert(is_chain(g, p0) && p0[0] == s && p0.last() == s);
    assert forall|i: int, k: int|
        0 <= i < g.len() && 0 <= k < g[i].len() && (#[trigger] g[i][k]) < g.len() && downstream(g, s, g[i][k])
            implies downstream(g, s, i as usize) by {
        let d = g[i][k];
        let path = choose|path: Seq<usize>| is_chain(g, path) && path[0] == s && path.last() == d;
        let p2 = path.push(i as usize);
        assert(g[i].contains(g[i][k]));
        assert forall|t: int| 0 <= t < p2.len() - 1 implies g[p2[t + 1] as int].contains(#[trigger] p2[t]) by {
            if t < path.len() - 1 {
                assert(p2[t] == path[t] && p2[t + 1] == path[t + 1]);
            } else {
                assert(p2[t] == d);
                assert(p2[t + 1] == i as usize);
            }
        }
        assert forall|t: int| 0 <= t < p2.len() implies (#[trigger] p2[t]) < g.len() by {
            if t < path.len() {
                assert(p2[t] == path[t]);
            }
        }
        assert(is_chain(g, p2) && p2[0] == s && p2.last() == i as usize);
    }
    assert forall|set: Set<usize>|
        #![trigger set.contains(s)]
        set.contains(s) && (forall|i: int, k: int|
            0 <= i < g.len() && 0 <= k < g[i].len() && set.contains(#[trigger] g[i][k]) ==> set.contains(
                i as usize,
            )) implies forall|j: usize| j < g.len() && #[trigger] downstream(g, s, j) ==> set.contains(j) by {
        assert forall|j: usize| j < g.len() && #[trigger] downstream(g, s, j) implies set.contains(j) by {
            let path = choose|path: Seq<usize>| is_chain(g, path) && path[0] == s && path.last() == j;
            lemma_chain_in_closed_set(g, path, set, path.len() - 1);
        }
    }
}

/// The jobs to replay when retrying from job `start`: `start` and every job
/// downstream of it, as one flag per job.
pub fn downstream_inclusive(dag: &Dag, start: usize) -> (r: Vec<bool>)
    requires
        dag.well_formed(),
        start < dag.jobs@.len(),
    ensures
        r@.len() == dag.jobs@.len(),
        forall|j: int| 0 <= j < dag.jobs@.len() ==> (#[trigger] r@[j] <==> downstream(graph(dag.deps@), start, j as usize)),
        r@[start as int],
        forall|i: int, k: int|
            0 <= i < dag.jobs@.len() && 0 <= k < dag.deps@[i]@.len() && r@[(#[trigger] dag.deps@[i]@[k]) as int]
                ==> r@[i],
        forall|set: Set<usize>|
            #![trigger set.contains(start)]
            set.contains(start) && (forall|i: int, k: int|
                0 <= i < dag.jobs@.len() && 0 <= k < dag.deps@[i]@.len() && set.contains(
                    #[trigger] dag.deps@[i]@[k],
                ) ==> set.contains(i as usize)) ==> forall|j: int| 0 <= j < dag.jobs@.len() && #[trigger] r@[j] ==> set.contains(
                j as usize,
            ),
{
    let n = dag.jobs.len();
    let ghost g = graph(dag.deps@);
    let mut visited: Vec<bool> = vec![false; n];
    let mut queue: Vec<usize> = Vec::new();
    queue.push(start);
    let mut head: usize = 0;
    proof {
        let path = seq![start];
        assert(is_chain(g, path));
        assert(path[0] == start && path.last() == start);
        assert(downstream(g, start, start));
        assert(queue@[0] == start);
    }
    while head < queue.len()
        invariant
            dag.well_formed(),
            g == graph(dag.deps@),
            n == dag.jobs@.len(),
            start < n,
            visited@.len() == n,
            0 <= head <= queue.len(),
            forall|q: int| 0 <= q < queue.len() ==> (#[trigger] queue@[q]) < n,
            forall|j: int| 0 <= j < n && #[trigger] visited@[j] ==> downstream(g, start, j as usize),
            forall|q: int| 0 <= q < queue.len() ==> downstream(g, start, #[trigger] queue@[q]),
            forall|x: int, w: usize|
                0 <= x < n && #[trigger] visited@[x] && #[trigger] dag.dependents@[x]@.contains(w) ==> visited@[w as int]
                    || exists|q: int| head <= q < queue.len() && queue@[q] == w,
            visited@[start as int] || exists|q: int| head <= q < queue.len() && queue@[q] == start,
        decreases count_false(visited@), queue.len() - head,
    {
        let node = queue[head];
        let ghost old_head = head;
        head += 1;
        if !visited[node] {
            let ghost old_vis = visited@;
            let ghost old_q = queue@;
            proof {
                lemma_count_false_set(visited@, node as int);
            }
            visited.set(node, true);
            let list = &dag.dependents[node];
            let mut k: usize = 0;
            while k < list.len()
                invariant
                    dag.well_formed(),
                    g == graph(dag.deps@),
                    n == dag.jobs@.len(),
                    list@ == dag.dependents@[node as int]@,
                    node < n,
                    0 <= k <= list.len(),
                    queue@.len() == old_q.len() + k,
                    forall|q: int| 0 <= q < old_q.len() ==> queue@[q] == old_q[q],
                    forall|t: int| 0 <= t < k ==> queue@[old_q.len() + t] == list@[t],
                    forall|q: int| 0 <= q < queue.len() ==> (#[trigger] queue@[q]) < n,
                    forall|q: int| 0 <= q < queue.len() ==> downstream(g, start, #[trigger] queue@[q]),
                    downstream(g, start, node),
                decreases list.len() - k,
            {
                let w = list[k];
                let ghost qb = queue@;
                proof {
                    assert(w < n);
                    let path = choose|path: Seq<usize>| is_chain(g, path) && path[0] == start && path.last() == node;
                    let p2 = path.push(w);
                    assert(g[w as int] == dag.deps@[w as int]@);
                    lemma_count_at(list@, k as int);
                    assert(count_in(dag.dependents@[node as int]@, w) == count_in(dag.deps@[w as int]@, node));
                    lemma_count_pos(dag.deps@[w as int]@, node);
                    assert(g[w as int].contains(node));
                    assert(is_chain(g, p2)) by {
                        assert forall|t: int| 0 <= t < p2.len() - 1 implies g[p2[t + 1] as int].contains(#[trigger] p2[t]) by {
                            if t < path.len() - 1 {
                                assert(p2[t] == path[t] && p2[t + 1] == path[t + 1]);
                            } else {
                                assert(p2[t] == node && p2[t + 1] == w);
                            }
                        }
                    }
                    assert(p2[0] == start && p2.last() == w);
                }
                queue.push(w);
                proof {
                    assert forall|q: int| 0 <= q < queue.len() implies downstream(g, start, #[trigger] queue@[q]) by {
                        if q < qb.len() {
                            assert(queue@[q] == qb[q]);
                        }
                    }
                }
                k += 1;
            }
            proof {
                assert forall|j: int| 0 <= j < n && #[trigger] visited@[j] implies downstream(g, start, j as usize) by {
                    if j != node as int {
                        assert(old_vis[j]);
                    } else {
                        assert(downstream(g, start, old_q[old_head as int]));
                    }
                }
                assert forall|x: int, w: usize|
                    0 <= x < n && #[trigger] visited@[x] && #[trigger] dag.dependents@[x]@.contains(w) implies visited@[w as int]
                    || exists|q: int| head <= q < queue.len() && queue@[q] == w by {
                    if x == node as int {
                        let t = choose|t: int| 0 <= t < list@.len() && list@[t] == w;
                        assert(queue@[old_q.len() + t] == w);
                    } else {
                        assert(old_vis[x]);
                        if !old_vis[w as int] {
                            let q = choose|q: int| old_head <= q < old_q.len() && old_q[q] == w;
                            if q == old_head {
                                assert(w == node);
                            } else {
                                assert(queue@[q] == w);
                            }
                        }
                    }
                }
                if !visited@[start as int] {
                    let q = choose|q: int| old_head <= q < old_q.len() && old_q[q] == start;
                    if q == old_head {
                        assert(start == node);
                    } else {
                        assert(queue@[q] == start);
                    }
                }
            }
        } else {
            proof {
                assert forall|x: int, w: usize|
                    0 <= x < n && #[trigger] visited@[x] && #[trigger] dag.dependents@[x]@.contains(w) implies visited@[w as int]
                    || exists|q: int| head <= q < queue.len() && queue@[q] == w by {
                    if !visited@[w as int] {
                        let q = choose|q: int| old_head <= q < queue.len() && queue@[q] == w;
                        assert(q != old_head);
                    }
                }
                if !visited@[start as int] {
                    let q = choose|q: int| old_head <= q < queue.len() && queue@[q] == start;
                    assert(q != old_head);
                }
            }
        }
    }
    proof {
        assert forall|j: int| 0 <= j < n implies (#[trigger] visited@[j] <==> downstream(g, start, j as usize)) by {
            if downstream(g, start, j as usize) {
                let path = choose|path: Seq<usize>| is_chain(g, path) && path[0] == start && path.last() == j as usize;
                assert forall|x: int, w: usize|
                    0 <= x < visited@.len() && #[trigger] visited@[x] && #[trigger] dag.dependents@[x]@.contains(w) implies visited@[w as int] by {}
                lemma_closed_holds_downstream(*dag, visited@, start, path, path.len() - 1);
            }
        }
        assert(dag.deps.len() == dag.deps@.len());
        lemma_downstream_closure(g, start);
        assert forall|i: int, k: int|
            0 <= i < n && 0 <= k < dag.deps@[i]@.len() && visited@[(#[trigger] dag.deps@[i]@[k]) as int]
                implies visited@[i] by {
            assert(g[i] == dag.deps@[i]@);
            assert(g[i][k] < n);
        }
        assert forall|set: Set<usize>|
            #![trigger set.contains(start)]
            set.contains(start) && (forall|i: int, k: int|
                0 <= i < n && 0 <= k < dag.deps@[i]@.len() && set.contains(#[trigger] dag.deps@[i]@[k]) ==> set.contains(
                    i as usize,
                )) implies forall|j: int| 0 <= j < n && #[trigger] visited@[j] ==> set.contains(j as usize) by {
            assert forall|i: int, k: int|
                0 <= i < g.len() && 0 <= k < g[i].len() && set.contains(#[trigger] g[i][k]) implies set.contains(
                    i as usize,
                ) by {
                assert(g[i] == dag.deps@[i]@);
            }
            assert forall|j: int| 0 <= j < n && #[trigger] visited@[j] implies set.contains(j as usize) by {
                assert(downstream(g, start, j as usize));
            }
        }
    }
    visited
}

/// The entries of `s` that satisfy `keep`, in order.
pub open spec fn keep_if(s: Seq<(String, JobStatus)>, keep: spec_fn((String, JobStatus)) -> bool) -> Seq<
    (String, JobStatus),
>
    decreases s.len(),
{
    if s.len() == 0 {
        Seq::empty()
    } else {
        keep_if(s.drop_last(), keep) + if keep(s.last()) {
            seq![s.last()]
        } else {
            Seq::empty()
        }
    }
}

proof fn lemma_keep_if(s: Seq<(String, JobStatus)>, keep: spec_fn((String, JobStatus)) -> bool)
    ensures
        forall|j: int| 0 <= j < keep_if(s, keep).len() ==> s.contains(#[trigger] keep_if(s, keep)[j]),
        pre_names(s).no_duplicates() ==> pre_names(keep_if(s, keep)).no_duplicates(),
    decreases s.len(),
{
    if s.len() > 0 {
        let t = s.drop_last();
        lemma_keep_if(t, keep);
        let kt = keep_if(t, keep);
        let ks = keep_if(s, keep);
        assert forall|j: int| 0 <= j < ks.len() implies s.contains(#[trigger] ks[j]) by {
            if j < kt.len() {
                assert(ks[j] == kt[j]);
                assert(t.contains(kt[j]));
                let i = choose|i: int| 0 <= i < t.len() && t[i] == kt[j];
                assert(s[i] == t[i]);
            } else {
                assert(ks[j] == s[s.len() - 1]);
            }
        }
        if pre_names(s).no_duplicates() {
            assert(pre_names(t).no_duplicates()) by {
                assert forall|a: int, b: int| 0 <= a < t.len() && 0 <= b < t.len() && a != b implies pre_names(t)[a]
                    != pre_names(t)[b] by {
                    assert(pre_names(s)[a] != pre_names(s)[b]);
                }
            }
            assert forall|a: int, b: int| 0 <= a < ks.len() && 0 <= b < ks.len() && a != b implies pre_names(ks)[a]
                != pre_names(ks)[b] by {
                if a < kt.len() && b < kt.len() {
                    assert(pre_names(kt)[a] != pre_names(kt)[b]);
                } else {
                    let (x, y) = if a < kt.len() { (a, b) } else { (b, a) };
                    assert(x < kt.len());
                    assert(ks[y] == s.last());
                    assert(t.contains(kt[x]));
                    let i = choose|i: int| 0 <= i < t.len() && t[i] == kt[x];
                    assert(pre_names(s)[i] != pre_names(s)[s.len() - 1]);
                }
            }
        }
    }
}

proof fn lemma_keep_if_members(s: Seq<(String, JobStatus)>, keep: spec_fn((String, JobStatus)) -> bool)
    ensures
        forall|x: (String, JobStatus)| #[trigger] keep_if(s, keep).contains(x) <==> (s.contains(x) && keep(x)),
    decreases s.len(),
{
    if s.len() > 0 {
        let t = s.drop_last();
        lemma_keep_if_members(t, keep);
        let kt = keep_if(t, keep);
        let ks = keep_if(s, keep);
        assert forall|x: (String, JobStatus)| #[trigger] ks.contains(x) <==> (s.contains(x) && keep(x)) by {
            if ks.contains(x) {
                let j = choose|j: int| 0 <= j < ks.len() && ks[j] == x;
                if j < kt.len() {
                    assert(kt[j] == ks[j]);
                    assert(kt.contains(x));
                    let i = choose|i: int| 0 <= i < t.len() && t[i] == x;
                    assert(s[i] == x);
                } else {
                    assert(x == s.last());
                    assert(s[s.len() - 1] == x);
                }
            }
            if s.contains(x) && keep(x) {
                let i = choose|i: int| 0 <= i < s.len() && s[i] == x;
                if i < s.len() - 1 {
                    assert(t[i] == x);
                    assert(t.contains(x));
                    assert(kt.contains(x));
                    let j = choose|j: int| 0 <= j < kt.len() && kt[j] == x;
                    assert(ks[j] == kt[j]);
                } else {
                    assert(ks[ks.len() - 1] == x);
                }
            }
        }
    }
}

/// A retry from `from` skips exactly the jobs that succeeded in the earlier
/// run `prev` and are neither `from` nor downstream of it; every other job
/// runs again.
pub proof fn lemma_retry_skips_exactly(
    jobs: Seq<Seq<char>>,
    g: Seq<Seq<usize>>,
    prev: Seq<(String, JobStatus)>,
    from: Seq<char>,
    i: int,
)
    requires
        0 <= i < jobs.len(),
    ensures
        carried(jobs, carried_over(jobs, g, prev, from), i) <==> ((exists|k: int|
            0 <= k < prev.len() && (#[trigger] prev[k]).0@ == jobs[i] && prev[k].1 is Succeeded)
            && !replayed(jobs, g, from, jobs[i])),
{
    let keep = |e: (String, JobStatus)| e.1 is Succeeded && !replayed(jobs, g, from, e.0@);
    let kept = carried_over(jobs, g, prev, from);
    assert(kept == keep_if(prev, keep));
    lemma_keep_if_members(prev, keep);
    let names = pre_names(kept);
    if carried(jobs, kept, i) {
        assert(names_job(names, jobs[i]));
        let m = choose|m: int| 0 <= m < names.len() && names[m] == jobs[i];
        assert(kept.contains(kept[m]));
        assert(prev.contains(kept[m]) && keep(kept[m]));
        let k = choose|k: int| 0 <= k < prev.len() && prev[k] == kept[m];
        assert(prev[k].0@ == jobs[i]);
    }
    if (exists|k: int| 0 <= k < prev.len() && (#[trigger] prev[k]).0@ == jobs[i] && prev[k].1 is Succeeded)
        && !replayed(jobs, g, from, jobs[i]) {
        let k = choose|k: int| 0 <= k < prev.len() && (#[trigger] prev[k]).0@ == jobs[i] && prev[k].1 is Succeeded;
        assert(prev.contains(prev[k]));
        assert(keep(prev[k]));
        assert(kept.contains(prev[k]));
        let m = choose|m: int| 0 <= m < kept.len() && kept[m] == prev[k];
        assert(names[m] == jobs[i]);
        assert(names_job(names, jobs[i]));
    }
}

/// Whether the entry named `name` is replayed by a retry from `from`: `from`
/// itself and every job downstream of it.
pub open spec fn replayed(jobs: Seq<Seq<char>>, g: Seq<Seq<usize>>, from: Seq<char>, name: Seq<char>) -> bool {
    ||| name == from
    ||| names_job(jobs, from) && names_job(jobs, name) && downstream(
        g,
        index_of(jobs, from) as usize,
        index_of(jobs, name) as usize,
    )
}

/// Every job of a chain that starts in a set closed under dependents is in the set.
proof fn lemma_chain_in_closed_set(g: Seq<Seq<usize>>, path: Seq<usize>, set: Set<usize>, t: int)
    requires
        is_chain(g, path),
        0 <= t < path.len(),
        set.contains(path[0]),
        forall|i: int, k: int|
            0 <= i < g.len() && 0 <= k < g[i].len() && set.contains(#[trigger] g[i][k]) ==> set.contains(i as usize),
    ensures
        set.contains(path[t]),
    decreases t,
{
    if t > 0 {
        lemma_chain_in_closed_set(g, path, set, t - 1);
        let w = path[t] as int;
        assert(g[w].contains(path[t - 1]));
        let k = choose|k: int| 0 <= k < g[w].len() && g[w][k] == path[t - 1];
        assert(set.contains(g[w][k]));
    }
}

/// What a retry from `from` replays, over jobs with distinct ids: `from`
/// itself; every job that depends directly on a replayed job; and nothing
/// else, for every other replayed job lies in any set of jobs that holds
/// `from` and every dependent of its members.
pub proof fn lemma_replayed_is_downstream_closure(jobs: Seq<Seq<char>>, g: Seq<Seq<usize>>, from: Seq<char>)
    requires
        jobs.no_duplicates(),
        g.len() == jobs.len(),
        g.len() <= usize::MAX,
        names_job(jobs, from),
    ensures
        replayed(jobs, g, from, from),
        forall|i: int, k: int|
            0 <= i < g.len() && 0 <= k < g[i].len() && (#[trigger] g[i][k]) < g.len() && replayed(
                jobs,
                g,
                from,
                jobs[g[i][k] as int],
            ) ==> replayed(jobs, g, from, jobs[i]),
        forall|set: Set<usize>|
            #![trigger set.contains(index_of(jobs, from) as usize)]
            set.contains(index_of(jobs, from) as usize) && (forall|i: int, k: int|
                0 <= i < g.len() && 0 <= k < g[i].len() && set.contains(#[trigger] g[i][k]) ==> set.contains(
                    i as usize,
                )) ==> forall|j: int|
                0 <= j < jobs.len() && replayed(jobs, g, from, #[trigger] jobs[j]) ==> set.contains(j as usize),
{
    let f = index_of(jobs, from);
    assert(0 <= f < jobs.len());
    assert(jobs[f] == from);
    assert forall|i: int, k: int|
        0 <= i < g.len() && 0 <= k < g[i].len() && (#[trigger] g[i][k]) < g.len() && replayed(
            jobs,
            g,
            from,
            jobs[g[i][k] as int],
        ) implies replayed(jobs, g, from, jobs[i]) by {
        let d = g[i][k] as int;
        lemma_index_of(jobs, d);
        lemma_index_of(jobs, i);
        assert(names_job(jobs, jobs[i]));
        let path: Seq<usize> = if jobs[d] == from {
            assert(d == f) by {
                lemma_index_of(jobs, f);
            }
            seq![d as usize]
        } else {
            assert(names_job(jobs, jobs[d]));
            choose|path: Seq<usize>| is_chain(g, path) && path[0] == f as usize && path.last() == d as usize
        };
        assert(is_chain(g, path) && path[0] == f as usize && path.last() == d as usize);
        let p2 = path.push(i as usize);
        assert(g[i].contains(g[i][k]));
        assert forall|t: int| 0 <= t < p2.len() - 1 implies g[p2[t + 1] as int].contains(#[trigger] p2[t]) by {
            if t < path.len() - 1 {
                assert(p2[t] == path[t] && p2[t + 1] == path[t + 1]);
            } else {
                assert(p2[t] == d as usize);
                assert(p2[t + 1] == i as usize);
                assert(g[i][k] == d as usize);
                assert(g[i].contains(g[i][k]));
            }
        }
        assert forall|t: int| 0 <= t < p2.len() implies (#[trigger] p2[t]) < g.len() by {
            if t < path.len() {
                assert(p2[t] == path[t]);
            }
        }
        assert(is_chain(g, p2));
        assert(p2[0] == f as usize && p2.last() == i as usize);
    }
    assert forall|set: Set<usize>|
        #![trigger set.contains(index_of(jobs, from) as usize)]
        set.contains(index_of(jobs, from) as usize) && (forall|i: int, k: int|
            0 <= i < g.len() && 0 <= k < g[i].len() && set.contains(#[trigger] g[i][k]) ==> set.contains(
                i as usize,
            )) implies forall|j: int|
            0 <= j < jobs.len() && replayed(jobs, g, from, #[trigger] jobs[j]) ==> set.contains(j as usize) by {
        assert forall|j: int| 0 <= j < jobs.len() && replayed(jobs, g, from, #[trigger] jobs[j]) implies set.contains(
            j as usize,
        ) by {
            lemma_index_of(jobs, j);
            if jobs[j] == from {
                lemma_index_of(jobs, f);
                assert(j == f);
            } else {
                let path = choose|path: Seq<usize>|
                    is_chain(g, path) && path[0] == f as usize && path.last() == j as usize;
                lemma_chain_in_closed_set(g, path, set, path.len() - 1);
            }
        }
    }
}

/// What a retry from `from` carries over from an earlier run: the entries of
/// `prev` that succeeded and are not replayed.
pub open spec fn carried_over(
    jobs: Seq<Seq<char>>,
    g: Seq<Seq<usize>>,
    prev: Seq<(String, JobStatus)>,
    from: Seq<char>,
) -> Seq<(String, JobStatus)> {
    keep_if(prev, |e: (String, JobStatus)| e.1 is Succeeded && !replayed(jobs, g, from, e.0@))
}

/// Plans a retry of an earlier run from job `from_job`: keeps the entries of
/// `prev` (job id and status) that succeeded and are neither `from_job` nor
/// downstream of it, in order.
pub fn plan_retry(dag: &Dag, prev: &Vec<(String, JobStatus)>, from_job: &String) -> (r: Vec<
    (String, JobStatus),
>)
    requires
        dag.well_formed(),
    ensures
        r@ == carried_over(str_views(dag.jobs@), graph(dag.deps@), prev@, from_job@),
        pre_names(prev@).no_duplicates() ==> pre_names(r@).no_duplicates(),
{
    let ghost jobs = str_views(dag.jobs@);
    let ghost g = graph(dag.deps@);
    let ghost keep = |e: (String, JobStatus)| e.1 is Succeeded && !replayed(jobs, g, from_job@, e.0@);
    let n = dag.jobs.len();
    let from_idx = find_job(&dag.jobs, from_job);
    let replay: Vec<bool> = if from_idx < n {
        downstream_inclusive(dag, from_idx)
    } else {
        vec![false; n]
    };
    proof {
        if from_idx < n {
            assert(names_job(jobs, from_job@));
        } else {
            if names_job(jobs, from_job@) {
                let j = choose|j: int| 0 <= j < jobs.len() && jobs[j] == from_job@;
            }
        }
    }
    let mut r: Vec<(String, JobStatus)> = Vec::new();
    let mut k: usize = 0;
    while k < prev.len()
        invariant
            dag.well_formed(),
            jobs == str_views(dag.jobs@),
            g == graph(dag.deps@),
            n == jobs.len(),
            from_idx == index_of(jobs, from_job@),
            (from_idx < n) == names_job(jobs, from_job@),
            replay@.len() == n,
            from_idx < n ==> forall|j: int| 0 <= j < n ==> (#[trigger] replay@[j] <==> downstream(g, from_idx, j as usize)),
            keep == (|e: (String, JobStatus)| e.1 is Succeeded && !replayed(jobs, g, from_job@, e.0@)),
            0 <= k <= prev.len(),
            r@ == keep_if(prev@.take(k as int), keep),
        decreases prev.len() - k,
    {
        let entry = &prev[k];
        let ghost old_r = r@;
        if entry.1.is_succeeded() {
            let i = find_job(&dag.jobs, &entry.0);
            let rep = entry.0 == *from_job || (from_idx < n && i < n && replay[i]);
            proof {
                let nm = entry.0@;
                if i < n {
                    assert(names_job(jobs, nm));
                } else if names_job(jobs, nm) {
                    let j = choose|j: int| 0 <= j < jobs.len() && jobs[j] == nm;
                }
                assert(rep == replayed(jobs, g, from_job@, nm));
            }
            if !rep {
                r.push((entry.0.clone(), entry.1.clone()));
            }
        }
        proof {
            assert(prev@.take(k as int + 1).drop_last() =~= prev@.take(k as int));
            assert(prev@.take(k as int + 1).last() == prev@[k as int]);
            assert(r@ =~= keep_if(prev@.take(k as int + 1), keep));
        }
        k += 1;
    }
    proof {
        assert(prev@.take(prev@.len() as int) =~= prev@);
        lemma_keep_if(prev@, keep);
    }
    r
}

/// How a launched job ended.
pub enum LaunchResult {
    /// The job ran past its time limit.
    TimedOut,
    /// The component returned its output.
    Completed,
    /// The component or its host failed with this message.
    Errored(String),
}

/// The status a job ends with.
pub fn job_outcome(elapsed_ms: u64, result: LaunchResult, timeout_secs: u64) -> (r: JobStatus)
    ensures
        match result {
            LaunchResult::TimedOut => r@ == JobStatusView::Failed {
                elapsed_ms,
                reason: "Timeout after "@ + decimal(timeout_secs as nat) + "s"@,
            },
            LaunchResult::Completed => r@ == JobStatusView::Succeeded { elapsed_ms },
            LaunchResult::Errored(m) => r@ == JobStatusView::Failed { elapsed_ms, reason: m@ },
        },
{
    match result {
        LaunchResult::TimedOut => {
            let mut reason = String::from_str("Timeout after ");
            let t = u64_to_decimal(timeout_secs);
            reason.append(t.as_str());
            reason.append("s");
            JobStatus::Failed { elapsed_ms, reason }
        },
        LaunchResult::Completed => JobStatus::Succeeded { elapsed_ms },
        LaunchResult::Errored(m) => JobStatus::Failed { elapsed_ms, reason: m },
    }
}

impl SchedState {
    /// Number of succeeded jobs, carried-over entries that name no job included.
    pub fn succeeded_count(&self) -> (r: usize)
        requires
            self.statuses@.len() + self.extra_succeeded <= usize::MAX,
        ensures
            r == count_succeeded(self.statuses@) + self.extra_succeeded,
            r == self.statuses@.filter(|x: JobStatus| x is Succeeded).len() + self.extra_succeeded,
    {
        proof {
            lemma_count_succeeded_positions(self.statuses@);
        }
        let mut c: usize = 0;
        let mut i: usize = 0;
        while i < self.statuses.len()
            invariant
                self.statuses@.len() + self.extra_succeeded <= usize::MAX,
                0 <= i <= self.statuses.len(),
                c == count_succeeded(self.statuses@.take(i as int)),
                c <= i,
            decreases self.statuses.len() - i,
        {
            proof {
                assert(self.statuses@.take(i as int + 1).drop_last() =~= self.statuses@.take(i as int));
            }
            if self.statuses[i].is_succeeded() {
                c += 1;
            }
            i += 1;
        }
        proof {
            assert(self.statuses@.take(i as int) =~= self.statuses@);
        }
        c + self.extra_succeeded
    }
}

/// Jobs carried over from an earlier run are never started: neither at the
/// start of a run nor when a finished job releases its dependents.
pub proof fn lemma_carried_never_started(
    g: Seq<Seq<usize>>,
    flags: Seq<bool>,
    st: Seq<JobStatus>,
    list: Seq<usize>,
)
    requires
        g.len() <= usize::MAX,
    ensures
        forall|j: int| 0 <= j < release(g, flags, st, list).1.len() ==> !flags[(#[trigger] release(g, flags, st, list).1[j]) as int],
        forall|j: int| 0 <= j < first_launch_roots(g, flags).len() ==> !flags[(#[trigger] first_launch_roots(g, flags)[j]) as int],
        forall|j: int| 0 <= j < first_launch_unlocked(g, flags).len() ==> !flags[(#[trigger] first_launch_unlocked(g, flags)[j]) as int],
    decreases list.len(),
{
    lemma_idx_filter(g.len() as int, |i: int| g[i].len() == 0 && !flags[i]);
    lemma_idx_filter(
        g.len() as int,
        |i: int|
            g[i].len() != 0 && !flags[i] && forall|k: int|
                0 <= k < g[i].len() ==> flags[(#[trigger] g[i][k]) as int],
    );
    if list.len() > 0 {
        lemma_carried_never_started(g, flags, st, list.drop_last());
        let prev = release(g, flags, st, list.drop_last());
        let l = release(g, flags, st, list).1;
        assert forall|j: int| 0 <= j < l.len() implies !flags[(#[trigger] l[j]) as int] by {
            if j < prev.1.len() {
                assert(l[j] == prev.1[j]);
            }
        }
    }
}

/// Whether a job has finished: succeeded or failed.
pub open spec fn finished(s: JobStatus) -> bool {
    s is Succeeded || s is Failed
}

/// `r` reports job `id`, finished with status `s`; `carried` marks a job
/// carried over from an earlier run.
pub open spec fn reports(r: JobResult, id: Seq<char>, s: JobStatus, carried: bool) -> bool {
    &&& r.job_id@ == id
    &&& match s {
        JobStatus::Succeeded { elapsed_ms } => r.status@ == "succeeded"@ && r.elapsed_ms == elapsed_ms
            && r.reason is None && r.skipped == carried,
        JobStatus::Failed { elapsed_ms, reason } => r.status@ == "failed"@ && r.elapsed_ms
            == elapsed_ms && (r.reason matches Some(m) && m@ == reason@) && !r.skipped,
        _ => false,
    }
}

/// The results of the finished jobs of a run, in workflow order: job `i` is
/// named `ids[i]`, has status `statuses[i]` and is carried over if `carried[i]`.
pub fn job_results(ids: &Vec<String>, statuses: &Vec<JobStatus>, carried: &Vec<bool>) -> (r: Vec<JobResult>)
    requires
        ids@.len() == statuses@.len(),
        carried@.len() == statuses@.len(),
    ensures
        ({
            let idx = idx_filter(statuses@.len() as int, |i: int| finished(statuses@[i]));
            &&& r@.len() == idx.len()
            &&& forall|k: int|
                0 <= k < r@.len() ==> reports(
                    #[trigger] r@[k],
                    ids@[idx[k] as int]@,
                    statuses@[idx[k] as int],
                    carried@[idx[k] as int],
                )
            &&& forall|k: int|
                0 <= k < r@.len() ==> {
                    let i = idx[k] as int;
                    &&& (#[trigger] r@[k]).job_id@ == ids@[i]@
                    &&& statuses@[i] matches JobStatus::Succeeded { elapsed_ms } ==> r@[k].status@ == "succeeded"@
                        && r@[k].elapsed_ms == elapsed_ms && r@[k].reason is None && r@[k].skipped == carried@[i]
                    &&& statuses@[i] matches JobStatus::Failed { elapsed_ms, reason } ==> r@[k].status@ == "failed"@
                        && r@[k].elapsed_ms == elapsed_ms && (r@[k].reason matches Some(m) && m@ == reason@)
                        && !r@[k].skipped
                    &&& (statuses@[i] is Succeeded || statuses@[i] is Failed)
                }
        }),
{
    let ghost p = |i: int| finished(statuses@[i]);
    let mut out: Vec<JobResult> = Vec::new();
    let mut i: usize = 0;
    while i < statuses.len()
        invariant
            i <= statuses@.len(),
            ids@.len() == statuses@.len(),
            carried@.len() == statuses@.len(),
            p == (|i: int| finished(statuses@[i])),
            out@.len() == idx_filter(i as int, p).len(),
            forall|k: int|
                0 <= k < out@.len() ==> reports(
                    #[trigger] out@[k],
                    ids@[idx_filter(i as int, p)[k] as int]@,
                    statuses@[idx_filter(i as int, p)[k] as int],
                    carried@[idx_filter(i as int, p)[k] as int],
                ),
        decreases statuses.len() - i,
    {
        let ghost before = idx_filter(i as int, p);
        assert(idx_filter(i as int + 1, p) == before + if p(i as int) {
            seq![i]
        } else {
            Seq::empty()
        });
        match &statuses[i] {
            JobStatus::Succeeded { elapsed_ms } => {
                out.push(JobResult::from_succeeded(ids[i].clone(), *elapsed_ms, carried[i]));
            },
            JobStatus::Failed { elapsed_ms, reason } => {
                out.push(JobResult::from_failed(ids[i].clone(), *elapsed_ms, reason.clone()));
            },
            _ => {},
        }
        proof {
            let after = idx_filter(i as int + 1, p);
            assert forall|k: int| 0 <= k < out@.len() implies reports(
                #[trigger] out@[k],
                ids@[after[k] as int]@,
                statuses@[after[k] as int],
                carried@[after[k] as int],
            ) by {
                if k < before.len() {
                    assert(after[k] == before[k]);
                }
            }
        }
        i = i + 1;
    }
    proof {
        lemma_idx_filter(statuses@.len() as int, p);
    }
    out
}

/// A retry run from `from` over the earlier run `prev`: a job is skipped,
/// carried over as succeeded, exactly when it succeeded in `prev` and is
/// neither `from` nor downstream of it; every carried-over status is a
/// success, so the run starts consistent and ready (`SchedState::start`); and
/// no job that the run starts first is a skipped one.
pub proof fn lemma_retry_run(
    jobs: Seq<Seq<char>>,
    g: Seq<Seq<usize>>,
    prev: Seq<(String, JobStatus)>,
    from: Seq<char>,
)
    requires
        g.len() == jobs.len(),
        g.len() <= usize::MAX,
    ensures
        ({
            let pre = carried_over(jobs, g, prev, from);
            let flags = carried_flags(jobs, pre);
            &&& forall|i: int|
                0 <= i < jobs.len() ==> (#[trigger] flags[i] <==> ((exists|k: int|
                    0 <= k < prev.len() && (#[trigger] prev[k]).0@ == jobs[i] && prev[k].1 is Succeeded)
                    && !replayed(jobs, g, from, jobs[i])))
            &&& forall|k: int| 0 <= k < pre.len() ==> (#[trigger] pre[k]).1 is Succeeded
            &&& forall|j: int|
                0 <= j < first_launch_roots(g, flags).len() ==> !flags[(#[trigger] first_launch_roots(g, flags)[j]) as int]
            &&& forall|j: int|
                0 <= j < first_launch_unlocked(g, flags).len() ==> !flags[(#[trigger] first_launch_unlocked(g, flags)[j]) as int]
        }),
{
    let pre = carried_over(jobs, g, prev, from);
    let flags = carried_flags(jobs, pre);
    let keep = |e: (String, JobStatus)| e.1 is Succeeded && !replayed(jobs, g, from, e.0@);
    assert(pre == keep_if(prev, keep));
    lemma_keep_if_members(prev, keep);
    assert forall|i: int| 0 <= i < jobs.len() implies (#[trigger] flags[i] <==> ((exists|k: int|
        0 <= k < prev.len() && (#[trigger] prev[k]).0@ == jobs[i] && prev[k].1 is Succeeded) && !replayed(
        jobs,
        g,
        from,
        jobs[i],
    ))) by {
        lemma_retry_skips_exactly(jobs, g, prev, from, i);
    }
    assert forall|k: int| 0 <= k < pre.len() implies (#[trigger] pre[k]).1 is Succeeded by {
        assert(pre.contains(pre[k]));
    }
    lemma_carried_never_started(g, flags, Seq::<JobStatus>::empty(), Seq::<usize>::empty());
}

} // verus!
