//! Dependency graph of a workflow: topological order (Kahn's algorithm),
//! dependency and dependent lists, and root jobs.
use vstd::prelude::*;

use crate::workflow::{job_dep_names, job_entries, job_ids, jobs_get_index, jobs_len, names_job, Workflow};

use crate::seqs::{
    count_in, lemma_count_push, lemma_count_take, lemma_count_take_le, lemma_distinct_below,
    lemma_pending_empty, lemma_pending_insert, lemma_pending_pos, lemma_pending_zero,
    lemma_prefix_set_step, pending, prefix_set,
};

verus! {

/// The dependency lists of a graph whose nodes are `0..n`; an entry `>= n` is a
/// dependency that names no node.
pub open spec fn graph(deps: Seq<Vec<usize>>) -> Seq<Seq<usize>> {
    deps.map_values(|v: Vec<usize>| v@)
}

/// The dependencies of node `x`.
pub open spec fn node_deps(g: Seq<Seq<usize>>, x: usize) -> Seq<usize> {
    g[x as int]
}

/// Node `d` stands in `order` at a position before `p`.
pub open spec fn placed_before(order: Seq<usize>, p: int, d: usize) -> bool {
    exists|q: int| 0 <= q < p && order[q] == d
}

/// Every dependency of the node at position `p` of `order` stands at an earlier position.
pub open spec fn deps_before(g: Seq<Seq<usize>>, order: Seq<usize>, p: int) -> bool {
    forall|k: int|
        0 <= k < node_deps(g, order[p]).len() ==> placed_before(
            order,
            p,
            #[trigger] node_deps(g, order[p])[k],
        )
}

/// `order` lists every node of `g` exactly once, each after all of its dependencies.
pub open spec fn is_topo_order(g: Seq<Seq<usize>>, order: Seq<usize>) -> bool {
    &&& order.len() == g.len()
    &&& order.no_duplicates()
    &&& forall|p: int| 0 <= p < order.len() ==> (#[trigger] order[p]) < g.len()
    &&& forall|p: int| 0 <= p < order.len() ==> #[trigger] deps_before(g, order, p)
}

/// The graph can be scheduled: some order runs every node after its dependencies.
pub open spec fn schedulable(g: Seq<Seq<usize>>) -> bool {
    exists|order: Seq<usize>| is_topo_order(g, order)
}

/// Appending to an order keeps the earlier positions' dependencies in place.
proof fn lemma_deps_before_extend(g: Seq<Seq<usize>>, a: Seq<usize>, b: Seq<usize>, p: int)
    requires
        0 <= p < a.len() <= b.len(),
        forall|i: int| 0 <= i < a.len() ==> b[i] == a[i],
        deps_before(g, a, p),
    ensures
        deps_before(g, b, p),
{
    assert forall|k: int| 0 <= k < node_deps(g, b[p]).len() implies placed_before(
        b,
        p,
        #[trigger] node_deps(g, b[p])[k],
    ) by {
        assert(a[p] == b[p]);
        let d = node_deps(g, a[p])[k];
        assert(placed_before(a, p, d));
        let q = choose|q: int| 0 <= q < p && a[q] == d;
        assert(b[q] == a[q]);
    }
}

/// If every node outside `qset` has a dependency outside `qset`, every node
/// of a topological order lies in `qset`.
proof fn lemma_order_prefix_in(g: Seq<Seq<usize>>, order: Seq<usize>, qset: Set<usize>, p: int)
    requires
        is_topo_order(g, order),
        0 <= p <= order.len(),
        forall|r: usize|
            r < g.len() && !qset.contains(r) ==> exists|k: int|
                0 <= k < node_deps(g, r).len() && !qset.contains(#[trigger] node_deps(g, r)[k]),
    ensures
        forall|i: int| 0 <= i < p ==> qset.contains(#[trigger] order[i]),
    decreases p,
{
    if p > 0 {
        lemma_order_prefix_in(g, order, qset, p - 1);
        let r = order[p - 1];
        assert(r < g.len());
        if !qset.contains(r) {
            let k = choose|k: int| 0 <= k < node_deps(g, r).len() && !qset.contains(#[trigger] node_deps(g, r)[k]);
            assert(deps_before(g, order, p - 1));
            let d = node_deps(g, order[p - 1])[k];
            assert(placed_before(order, p - 1, d));
            let q = choose|q: int| 0 <= q < p - 1 && order[q] == d;
            assert(qset.contains(order[q]));
        }
    }
}

/// A set of nodes each of which waits on something outside the set, when nonempty,
/// makes the graph unschedulable.
proof fn lemma_stuck_unschedulable(g: Seq<Seq<usize>>, qset: Set<usize>, r0: usize)
    requires
        g.len() <= usize::MAX,
        r0 < g.len(),
        !qset.contains(r0),
        forall|r: usize|
            r < g.len() && !qset.contains(r) ==> exists|k: int|
                0 <= k < node_deps(g, r).len() && !qset.contains(#[trigger] node_deps(g, r)[k]),
    ensures
        !schedulable(g),
{
    if schedulable(g) {
        let order = choose|order: Seq<usize>| is_topo_order(g, order);
        lemma_order_prefix_in(g, order, qset, order.len() as int);
        lemma_distinct_below(order, g.len() as usize);
        assert(order.contains(r0));
        let i = choose|i: int| 0 <= i < order.len() && order[i] == r0;
        assert(qset.contains(order[i]));
    }
}

/// For each node `d`, the nodes that depend on `d`: a node appears once per
/// occurrence of `d` among its dependencies.
pub fn dependents_lists(deps: &Vec<Vec<usize>>) -> (notify: Vec<Vec<usize>>)
    ensures
        notify.len() == deps.len(),
        forall|d: usize, w: usize|
            d < deps.len() && w < deps.len() ==> #[trigger] count_in(notify[d as int]@, w)
                == count_in(graph(deps@)[w as int], d),
        forall|d: int, x: int|
            0 <= d < deps.len() && 0 <= x < notify[d]@.len() ==> #[trigger] notify[d]@[x]
                < deps.len(),
{
    let n = deps.len();
    let ghost g = graph(deps@);

    // notify[d]: for each occurrence of d among the dependencies of w, one entry w.
    let mut notify: Vec<Vec<usize>> = Vec::new();
    let mut i: usize = 0;
    while i < n
        invariant
            0 <= i <= n,
            notify.len() == i,
            forall|d: int| 0 <= d < i ==> (#[trigger] notify[d])@ == Seq::<usize>::empty(),
        decreases n - i,
    {
        notify.push(Vec::new());
        i += 1;
    }
    proof {
        assert forall|d: usize, w: usize| d < n && w < n implies #[trigger] count_in(notify[d as int]@, w) == 0 by {}
    }

    let mut j: usize = 0;
    while j < n
        invariant
            n == deps.len(),
            g == graph(deps@),
            notify.len() == n,
            0 <= j <= n,
            forall|d: usize, w: usize|
                d < n && w < n ==> #[trigger] count_in(notify[d as int]@, w) == if w < j {
                    count_in(g[w as int], d)
                } else {
                    0
                },
            forall|d: int, x: int|
                0 <= d < n && 0 <= x < notify[d]@.len() ==> #[trigger] notify[d]@[x] < j,
        decreases n - j,
    {
        let row = &deps[j];
        assert(row@ == g[j as int]);
        let mut k: usize = 0;
        while k < row.len()
            invariant
                n == deps.len(),
                g == graph(deps@),
                notify.len() == n,
                0 <= j < n,
                row@ == g[j as int],
                0 <= k <= row.len(),
                forall|d: usize, w: usize|
                    d < n && w < n ==> #[trigger] count_in(notify[d as int]@, w) == if w < j {
                        count_in(g[w as int], d)
                    } else if w == j {
                        count_in(g[j as int].take(k as int), d)
                    } else {
                        0
                    },
                forall|d: int, x: int|
                    0 <= d < n && 0 <= x < notify[d]@.len() ==> #[trigger] notify[d]@[x] < j + 1,
            decreases row.len() - k,
        {
            let d = row[k];
            let ghost old_notify = notify@;
            if d < n {
                notify[d].push(j);
            }
            proof {
                assert forall|d2: usize, w: usize| d2 < n && w < n implies #[trigger] count_in(notify[d2 as int]@, w) == if w < j {
                    count_in(g[w as int], d2)
                } else if w == j {
                    count_in(g[j as int].take(k + 1), d2)
                } else {
                    0
                } by {
                    lemma_count_take(g[j as int], k as int, d2);
                    if d < n && d2 == d {
                        lemma_count_push(old_notify[d as int]@, j, w);
                    } else {
                        assert(notify[d2 as int] == old_notify[d2 as int]);
                    }
                }
                assert forall|d2: int, x: int|
                    0 <= d2 < n && 0 <= x < notify[d2]@.len() implies #[trigger] notify[d2]@[x]
                    < j + 1 by {
                    if d < n && d2 == d && x == old_notify[d2]@.len() {
                    } else {
                        assert(notify[d2]@[x] == old_notify[d2]@[x]);
                    }
                }
            }
            k += 1;
        }
        proof {
            assert(g[j as int].take(row.len() as int) =~= g[j as int]);
        }
        j += 1;
    }

    notify
}

/// Kahn's algorithm over nodes `0..deps.len()`. Returns an order in which every
/// node comes after its dependencies, or `None` when no such order exists
/// (a cycle, or a dependency that names no node).
pub fn kahn_order(deps: &Vec<Vec<usize>>) -> (r: Option<Vec<usize>>)
    ensures
        match r {
            Some(o) => is_topo_order(graph(deps@), o@),
            None => !schedulable(graph(deps@)),
        },
{
    let n = deps.len();
    let ghost g = graph(deps@);

    let notify = dependents_lists(deps);

    // indeg[w]: dependencies of w that have not been processed yet.
    // queue: nodes whose dependencies are all processed; queue[0..head] is processed.
    let mut indeg: Vec<usize> = Vec::new();
    let mut queue: Vec<usize> = Vec::new();
    let mut w: usize = 0;
    while w < n
        invariant
            n == deps.len(),
            g == graph(deps@),
            0 <= w <= n,
            indeg.len() == w,
            forall|x: int| 0 <= x < w ==> indeg[x] == pending(g[x], Set::empty()),
            queue@.no_duplicates(),
            forall|i: int| 0 <= i < queue.len() ==> (#[trigger] queue@[i]) < w,
            forall|x: usize| x < w ==> (queue@.contains(x) <==> indeg[x as int] == 0),
            forall|p: int| 0 <= p < queue.len() ==> #[trigger] deps_before(g, queue@, p),
        decreases n - w,
    {
        let len = deps[w].len();
        proof {
            lemma_pending_empty(g[w as int]);
        }
        indeg.push(len);
        if len == 0 {
            let ghost old_q = queue@;
            queue.push(w);
            proof {
                assert forall|p: int| 0 <= p < queue.len() implies #[trigger] deps_before(
                    g,
                    queue@,
                    p,
                ) by {
                    if p < old_q.len() {
                        lemma_deps_before_extend(g, old_q, queue@, p);
                    } else {
                        assert(queue@[p] == w);
                        assert(g[w as int].len() == 0);
                        assert(deps_before(g, queue@, p));
                    }
                }
                assert forall|x: usize| x < w + 1 implies (queue@.contains(x) <==> indeg[x as int] == 0) by {
                    if x < w {
                        if queue@.contains(x) {
                            let i = choose|i: int| 0 <= i < queue@.len() && queue@[i] == x;
                            assert(i < old_q.len());
                            assert(old_q[i] == x);
                        }
                        if old_q.contains(x) {
                            let i = choose|i: int| 0 <= i < old_q.len() && old_q[i] == x;
                            assert(queue@[i] == x);
                        }
                    } else {
                        assert(queue@[old_q.len() as int] == w);
                    }
                }
            }
        } else {
            proof {
                assert forall|x: usize| x < w + 1 implies (queue@.contains(x) <==> indeg[x as int] == 0) by {
                    if x == w {
                        if queue@.contains(x) {
                            let i = choose|i: int| 0 <= i < queue@.len() && queue@[i] == x;
                        }
                    }
                }
            }
        }
        w += 1;
    }
    proof {
        assert forall|x: usize| x < n implies indeg[x as int] == pending(
            g[x as int],
            prefix_set(queue@, 0),
        ) by {
            assert(prefix_set(queue@, 0) =~= Set::<usize>::empty());
        }
    }

    let mut head: usize = 0;
    while head < queue.len()
        invariant
            n == deps.len(),
            g == graph(deps@),
            notify.len() == n,
            forall|d: usize, w: usize|
                d < n && w < n ==> #[trigger] count_in(notify[d as int]@, w) == count_in(
                    g[w as int],
                    d,
                ),
            forall|d: int, x: int|
                0 <= d < n && 0 <= x < notify[d]@.len() ==> #[trigger] notify[d]@[x] < n,
            indeg.len() == n,
            0 <= head <= queue.len(),
            queue@.no_duplicates(),
            forall|i: int| 0 <= i < queue.len() ==> (#[trigger] queue@[i]) < n,
            forall|x: usize|
                x < n ==> indeg[x as int] == pending(g[x as int], prefix_set(queue@, head as int)),
            forall|x: usize| x < n ==> (queue@.contains(x) <==> indeg[x as int] == 0),
            forall|p: int| 0 <= p < queue.len() ==> #[trigger] deps_before(g, queue@, p),
        decreases n - head,
    {
        proof {
            lemma_distinct_below(queue@, n);
        }
        let job = queue[head];
        let ghost done = prefix_set(queue@, head as int);
        let ghost q0 = queue@;
        proof {
            if done.contains(job) {
                let i = choose|i: int| 0 <= i < head && queue@[i] == job;
                assert(queue@[i] == queue@[head as int]);
            }
        }
        let waiters = &notify[job];
        let mut k: usize = 0;
        while k < waiters.len()
            invariant
                n == deps.len(),
                g == graph(deps@),
                job < n,
                !done.contains(job),
                forall|d: usize, w: usize|
                    d < n && w < n ==> #[trigger] count_in(notify[d as int]@, w) == count_in(
                        g[w as int],
                        d,
                    ),
                notify.len() == n,
                waiters@ == notify[job as int]@,
                forall|x: int| 0 <= x < waiters@.len() ==> #[trigger] waiters@[x] < n,
                0 <= k <= waiters.len(),
                indeg.len() == n,
                0 <= head < q0.len(),
                q0[head as int] == job,
                queue@.len() >= q0.len(),
                queue@.take(q0.len() as int) == q0,
                done == prefix_set(q0, head as int),
                queue@.no_duplicates(),
                forall|i: int| 0 <= i < queue.len() ==> (#[trigger] queue@[i]) < n,
                forall|x: usize|
                    x < n ==> indeg[x as int] + count_in(waiters@.take(k as int), x) == pending(
                        g[x as int],
                        done,
                    ),
                forall|x: usize| x < n ==> (queue@.contains(x) <==> indeg[x as int] == 0),
                forall|p: int| 0 <= p < queue.len() ==> #[trigger] deps_before(g, queue@, p),
                forall|i: int| 0 <= i <= head ==> #[trigger] queue@[i] == q0[i],
            decreases waiters.len() - k,
        {
            let v = waiters[k];
            proof {
                lemma_count_take(waiters@, k as int, v);
                lemma_count_take_le(waiters@, k as int + 1, v);
                lemma_pending_insert(g[v as int], done, job);
                assert(count_in(waiters@, v) == count_in(g[v as int], job));
            }
            let ghost old_q = queue@;
            let ghost old_indeg = indeg@;
            indeg[v] = indeg[v] - 1;
            if indeg[v] == 0 {
                queue.push(v);
                proof {
                    // every dependency of v is processed: it is in done or is job
                    let done2 = done.insert(job);
                    assert(pending(g[v as int], done2) == 0);
                    lemma_pending_zero(g[v as int], done2);
                    let p = old_q.len() as int;
                    assert(queue@[p] == v);
                    assert forall|kk: int| 0 <= kk < node_deps(g, queue@[p]).len() implies placed_before(
                        queue@,
                        p,
                        #[trigger] node_deps(g, queue@[p])[kk],
                    ) by {
                        let dd = g[v as int][kk];
                        assert(done2.contains(dd));
                        if dd == job {
                            assert(queue@[head as int] == job);
                        } else {
                            let q = choose|q: int| 0 <= q < head && q0[q] == dd;
                            assert(queue@[q] == q0[q]);
                        }
                    }
                    assert(deps_before(g, queue@, p));
                }
            }
            proof {
                assert forall|x: usize| x < n implies indeg[x as int] + count_in(
                    waiters@.take(k as int + 1),
                    x,
                ) == pending(g[x as int], done) by {
                    lemma_count_take(waiters@, k as int, x);
                }
                assert forall|x: usize| x < n implies (queue@.contains(x) <==> indeg[x as int]
                    == 0) by {
                    if x != v {
                        if queue@.contains(x) && !old_q.contains(x) {
                            let i = choose|i: int| 0 <= i < queue@.len() && queue@[i] == x;
                            assert(i < old_q.len() ==> old_q[i] == x);
                        }
                        if old_q.contains(x) {
                            let i = choose|i: int| 0 <= i < old_q.len() && old_q[i] == x;
                            assert(queue@[i] == x);
                        }
                    } else if indeg[v as int] != 0 {
                        if queue@.contains(x) {
                            let i = choose|i: int| 0 <= i < queue@.len() && queue@[i] == x;
                            assert(old_q[i] == x);
                        }
                    } else {
                        assert(queue@[old_q.len() as int] == v);
                    }
                }
                assert forall|p: int| 0 <= p < queue.len() implies #[trigger] deps_before(
                    g,
                    queue@,
                    p,
                ) by {
                    if p < old_q.len() {
                        lemma_deps_before_extend(g, old_q, queue@, p);
                    }
                }
                if indeg[v as int] == 0 {
                    assert(!old_q.contains(v));
                    assert forall|a: int, b: int|
                        0 <= a < queue.len() && 0 <= b < queue.len() && a != b implies queue@[a]
                        != queue@[b] by {
                        if a < old_q.len() && b < old_q.len() {
                            assert(old_q[a] != old_q[b]);
                        } else if a < old_q.len() {
                            assert(old_q.contains(old_q[a]));
                        } else if b < old_q.len() {
                            assert(old_q.contains(old_q[b]));
                        }
                    }
                    assert(queue@.take(q0.len() as int) =~= old_q.take(q0.len() as int));
                }
                assert forall|i: int| 0 <= i <= head implies #[trigger] queue@[i] == q0[i] by {
                    assert(queue@[i] == old_q[i]);
                }
            }
            k += 1;
        }
        proof {
            assert(waiters@.take(waiters@.len() as int) =~= waiters@);
            assert(prefix_set(queue@, head as int) =~= prefix_set(q0, head as int)) by {
                assert forall|x: usize| prefix_set(queue@, head as int).contains(x) <==> prefix_set(
                    q0,
                    head as int,
                ).contains(x) by {
                    if prefix_set(queue@, head as int).contains(x) {
                        let i = choose|i: int| 0 <= i < head && queue@[i] == x;
                        assert(q0[i] == x);
                    }
                    if prefix_set(q0, head as int).contains(x) {
                        let i = choose|i: int| 0 <= i < head && q0[i] == x;
                        assert(queue@[i] == x);
                    }
                }
            }
            lemma_prefix_set_step(queue@, head as int);
            assert forall|x: usize| x < n implies indeg[x as int] == pending(
                g[x as int],
                prefix_set(queue@, head as int + 1),
            ) by {
                lemma_pending_insert(g[x as int], done, job);
                assert(count_in(notify[job as int]@, x) == count_in(g[x as int], job));
            }
        }
        head += 1;
    }

    proof {
        lemma_distinct_below(queue@, n);
    }
    if queue.len() == n {
        Some(queue)
    } else {
        proof {
            let qset = prefix_set(queue@, head as int);
            assert forall|x: usize| qset.contains(x) <==> queue@.contains(x) by {
                if queue@.contains(x) {
                    let i = choose|i: int| 0 <= i < queue@.len() && queue@[i] == x;
                    assert(0 <= i < head && queue@[i] == x);
                }
            }
            assert(exists|x: usize| x < n && !queue@.contains(x));
            let r0 = choose|x: usize| x < n && !queue@.contains(x);
            assert forall|r: usize| r < g.len() && !qset.contains(r) implies exists|kk: int|
                0 <= kk < node_deps(g, r).len() && !qset.contains(#[trigger] node_deps(g, r)[kk]) by {
                assert(!queue@.contains(r));
                assert(indeg[r as int] != 0);
                lemma_pending_pos(g[r as int], qset);
                let kk = choose|kk: int| 0 <= kk < g[r as int].len() && !qset.contains(#[trigger] g[r as int][kk]);
                assert(node_deps(g, r)[kk] == g[r as int][kk]);
            }
            lemma_stuck_unschedulable(g, qset, r0);
        }
        None
    }
}


/// The views of a sequence of strings.
pub open spec fn str_views(v: Seq<String>) -> Seq<Seq<char>> {
    v.map_values(|s: String| s@)
}

/// Position of the job named `name` in `ids`, or `ids.len()` when no job has that name.
pub open spec fn index_of(ids: Seq<Seq<char>>, name: Seq<char>) -> int {
    if names_job(ids, name) {
        choose|i: int| 0 <= i < ids.len() && ids[i] == name
    } else {
        ids.len() as int
    }
}

/// The dependency graph over job positions; a name that is no job's id becomes `ids.len()`.
pub open spec fn resolved_graph(ids: Seq<Seq<char>>, deps: Seq<Seq<Seq<char>>>) -> Seq<Seq<usize>> {
    deps.map_values(|ns: Seq<Seq<char>>| ns.map_values(|nm: Seq<char>| index_of(ids, nm) as usize))
}

/// Job `nm` stands in `order` at a position before `p`.
pub open spec fn name_placed_before(order: Seq<Seq<char>>, p: int, nm: Seq<char>) -> bool {
    exists|q: int| 0 <= q < p && order[q] == nm
}

/// Every name of `ds` stands in `order` at a position before `p`.
pub open spec fn name_deps_before(order: Seq<Seq<char>>, p: int, ds: Seq<Seq<char>>) -> bool {
    forall|k: int| 0 <= k < ds.len() ==> name_placed_before(order, p, #[trigger] ds[k])
}

/// `order` lists every job id exactly once, each after every job that job depends on.
pub open spec fn is_name_order(
    ids: Seq<Seq<char>>,
    deps: Seq<Seq<Seq<char>>>,
    order: Seq<Seq<char>>,
) -> bool {
    &&& order.len() == ids.len()
    &&& order.no_duplicates()
    &&& forall|p: int| 0 <= p < order.len() ==> names_job(ids, #[trigger] order[p])
    &&& forall|p: int, i: int|
        0 <= p < order.len() && 0 <= i < ids.len() && #[trigger] ids[i] == #[trigger] order[p]
            ==> name_deps_before(order, p, deps[i])
}

/// Some order runs every job after the jobs it depends on.
pub open spec fn name_schedulable(ids: Seq<Seq<char>>, deps: Seq<Seq<Seq<char>>>) -> bool {
    exists|order: Seq<Seq<char>>| is_name_order(ids, deps, order)
}

/// Among distinct ids, the position of the id at position `i` is `i`.
pub proof fn lemma_index_of(ids: Seq<Seq<char>>, i: int)
    requires
        ids.no_duplicates(),
        0 <= i < ids.len(),
    ensures
        index_of(ids, ids[i]) == i,
{
    assert(names_job(ids, ids[i]));
    let j = choose|j: int| 0 <= j < ids.len() && ids[j] == ids[i];
    assert(j == i);
}

/// A topological order of job positions gives a valid order of job ids.
proof fn lemma_index_order_to_names(ids: Seq<Seq<char>>, deps: Seq<Seq<Seq<char>>>, ord: Seq<usize>)
    requires
        ids.no_duplicates(),
        deps.len() == ids.len(),
        ids.len() <= usize::MAX,
        is_topo_order(resolved_graph(ids, deps), ord),
    ensures
        is_name_order(ids, deps, ord.map_values(|x: usize| ids[x as int])),
{
    let g = resolved_graph(ids, deps);
    let order = ord.map_values(|x: usize| ids[x as int]);
    assert forall|a: int, b: int| 0 <= a < order.len() && 0 <= b < order.len() && a != b implies order[a]
        != order[b] by {
        assert(ord[a] != ord[b]);
        assert(ord[a] < ids.len() && ord[b] < ids.len());
    }
    assert forall|p: int| 0 <= p < order.len() implies names_job(ids, #[trigger] order[p]) by {
        assert(ord[p] < ids.len());
        assert(ids[ord[p] as int] == order[p]);
    }
    assert forall|p: int, i: int|
        0 <= p < order.len() && 0 <= i < ids.len() && #[trigger] ids[i] == #[trigger] order[p]
        implies name_deps_before(order, p, deps[i]) by {
        assert(ord[p] < ids.len());
        assert(ids[ord[p] as int] == ids[i]);
        assert(ord[p] == i);
        assert(deps_before(g, ord, p));
        assert forall|k: int| 0 <= k < deps[i].len() implies name_placed_before(
            order,
            p,
            #[trigger] deps[i][k],
        ) by {
            let nm = deps[i][k];
            assert(node_deps(g, ord[p])[k] == index_of(ids, nm) as usize);
            assert(placed_before(ord, p, node_deps(g, ord[p])[k]));
            let q = choose|q: int| 0 <= q < p && ord[q] == node_deps(g, ord[p])[k];
            assert(ord[q] < ids.len());
            if !names_job(ids, nm) {
                assert(index_of(ids, nm) == ids.len());
            }
            assert(ids[index_of(ids, nm)] == nm);
            assert(order[q] == nm);
        }
    }
}

/// A valid order of job ids gives a topological order of job positions.
proof fn lemma_name_order_to_indices(ids: Seq<Seq<char>>, deps: Seq<Seq<Seq<char>>>, order: Seq<Seq<char>>)
    requires
        ids.no_duplicates(),
        deps.len() == ids.len(),
        ids.len() <= usize::MAX,
        is_name_order(ids, deps, order),
    ensures
        schedulable(resolved_graph(ids, deps)),
{
    let g = resolved_graph(ids, deps);
    let ord = order.map_values(|nm: Seq<char>| index_of(ids, nm) as usize);
    assert forall|p: int| 0 <= p < ord.len() implies ord[p] < ids.len() && ids[ord[p] as int]
        == order[p] by {
        assert(names_job(ids, order[p]));
    }
    assert forall|a: int, b: int| 0 <= a < ord.len() && 0 <= b < ord.len() && a != b implies ord[a]
        != ord[b] by {
        assert(ids[ord[a] as int] == order[a]);
        assert(ids[ord[b] as int] == order[b]);
        assert(order[a] != order[b]);
    }
    assert forall|p: int| 0 <= p < ord.len() implies #[trigger] deps_before(g, ord, p) by {
        let i = ord[p] as int;
        assert(ids[i] == order[p]);
        assert(name_deps_before(order, p, deps[i]));
        assert forall|k: int| 0 <= k < node_deps(g, ord[p]).len() implies placed_before(
            ord,
            p,
            #[trigger] node_deps(g, ord[p])[k],
        ) by {
            let nm = deps[i][k];
            assert(name_placed_before(order, p, nm));
            let q = choose|q: int| 0 <= q < p && order[q] == nm;
            assert(ord[q] == index_of(ids, nm) as usize);
            assert(node_deps(g, ord[p])[k] == index_of(ids, nm) as usize);
        }
    }
    assert(is_topo_order(g, ord));
}

/// In a schedulable graph every dependency is a node.
proof fn lemma_topo_deps_in_range(g: Seq<Seq<usize>>, ord: Seq<usize>)
    requires
        g.len() <= usize::MAX,
        is_topo_order(g, ord),
    ensures
        forall|i: int, k: int| 0 <= i < g.len() && 0 <= k < g[i].len() ==> #[trigger] g[i][k] < g.len(),
{
    lemma_distinct_below(ord, g.len() as usize);
    assert forall|i: int, k: int| 0 <= i < g.len() && 0 <= k < g[i].len() implies #[trigger] g[i][k]
        < g.len() by {
        assert(ord.contains(i as usize));
        let p = choose|p: int| 0 <= p < ord.len() && ord[p] == i as usize;
        assert(deps_before(g, ord, p));
        assert(node_deps(g, ord[p])[k] == g[i][k]);
        assert(placed_before(ord, p, node_deps(g, ord[p])[k]));
        let q = choose|q: int| 0 <= q < p && ord[q] == node_deps(g, ord[p])[k];
        assert(ord[q] < g.len());
    }
}

/// Why no schedule could be built.
#[derive(Clone, Debug)]
pub enum DagError {
    /// Some jobs wait on each other, or on a job that does not exist.
    CircularDependency,
}

impl DagError {
    /// The error's message.
    pub fn message(&self) -> (r: String)
        ensures
            r@ == "Workflow contains a circular dependency"@,
    {
        String::from_str("Workflow contains a circular dependency")
    }
}

/// Position of the job named `name` among `ids`, or `ids.len()` when there is none.
pub(crate) fn find_job(ids: &Vec<String>, name: &String) -> (r: usize)
    requires
        str_views(ids@).no_duplicates(),
    ensures
        r == index_of(str_views(ids@), name@),
{
    let ghost v = str_views(ids@);
    let mut i: usize = 0;
    while i < ids.len()
        invariant
            v == str_views(ids@),
            v.no_duplicates(),
            0 <= i <= ids.len(),
            forall|j: int| 0 <= j < i ==> v[j] != name@,
        decreases ids.len() - i,
    {
        if ids[i] == *name {
            proof {
                assert(v[i as int] == name@);
                lemma_index_of(v, i as int);
            }
            return i;
        }
        i += 1;
    }
    proof {
        if names_job(v, name@) {
            let j = choose|j: int| 0 <= j < v.len() && v[j] == name@;
        }
    }
    ids.len()
}

/// The positions of the jobs that `names` refer to (`ids.len()` for an unknown name).
fn resolve_names(ids: &Vec<String>, names: &Vec<String>) -> (r: Vec<usize>)
    requires
        str_views(ids@).no_duplicates(),
    ensures
        r@ == str_views(names@).map_values(|nm: Seq<char>| index_of(str_views(ids@), nm) as usize),
{
    let mut r: Vec<usize> = Vec::new();
    let mut k: usize = 0;
    while k < names.len()
        invariant
            str_views(ids@).no_duplicates(),
            0 <= k <= names.len(),
            r@ == str_views(names@).take(k as int).map_values(
                |nm: Seq<char>| index_of(str_views(ids@), nm) as usize,
            ),
        decreases names.len() - k,
    {
        let x = find_job(ids, &names[k]);
        r.push(x);
        proof {
            assert(str_views(names@).take(k as int + 1) =~= str_views(names@).take(k as int).push(
                names@[k as int]@,
            ));
        }
        k += 1;
    }
    proof {
        assert(str_views(names@).take(k as int) =~= str_views(names@));
    }
    r
}

/// Orders the jobs `ids` whose resolved dependency lists are `g`; the result
/// lists job ids.
fn order_by_name(ids: &Vec<String>, g: &Vec<Vec<usize>>, Ghost(deps): Ghost<Seq<Seq<Seq<char>>>>) -> (r:
    Option<Vec<String>>)
    requires
        str_views(ids@).no_duplicates(),
        deps.len() == ids.len(),
        graph(g@) == resolved_graph(str_views(ids@), deps),
    ensures
        match r {
            Some(names) => is_name_order(str_views(ids@), deps, str_views(names@)) && schedulable(
                graph(g@),
            ),
            None => !name_schedulable(str_views(ids@), deps),
        },
{
    let ghost v = str_views(ids@);
    match kahn_order(g) {
        None => {
            proof {
                if name_schedulable(v, deps) {
                    let order = choose|order: Seq<Seq<char>>| is_name_order(v, deps, order);
                    lemma_name_order_to_indices(v, deps, order);
                }
            }
            None
        },
        Some(ord) => {
            let mut names: Vec<String> = Vec::new();
            let mut p: usize = 0;
            while p < ord.len()
                invariant
                    v == str_views(ids@),
                    ord.len() == ids.len(),
                    forall|i: int| 0 <= i < ord.len() ==> (#[trigger] ord@[i]) < ids.len(),
                    0 <= p <= ord.len(),
                    str_views(names@) == ord@.take(p as int).map_values(|x: usize| v[x as int]),
                decreases ord.len() - p,
            {
                let name = ids[ord[p]].clone();
                let ghost old_names = names@;
                names.push(name);
                proof {
                    assert(name@ == v[ord@[p as int] as int]);
                    assert(str_views(names@) =~= str_views(old_names).push(name@));
                    assert(ord@.take(p as int + 1) =~= ord@.take(p as int).push(ord@[p as int]));
                    assert(str_views(names@) =~= ord@.take(p as int + 1).map_values(
                        |x: usize| v[x as int],
                    ));
                }
                p += 1;
            }
            proof {
                assert(ord@.take(p as int) =~= ord@);
                lemma_index_order_to_names(v, deps, ord@);
            }
            Some(names)
        },
    }
}

/// The job ids of `(id, dependencies)` pairs.
pub open spec fn pair_ids(deps: Seq<(String, Vec<String>)>) -> Seq<Seq<char>> {
    deps.map_values(|e: (String, Vec<String>)| e.0@)
}

/// The dependency names of `(id, dependencies)` pairs.
pub open spec fn pair_deps(deps: Seq<(String, Vec<String>)>) -> Seq<Seq<Seq<char>>> {
    deps.map_values(|e: (String, Vec<String>)| str_views(e.1@))
}

/// Topological sort of jobs given as `(id, dependencies)` pairs with distinct ids.
/// Returns an order that lists every id once, each after its dependencies, or
/// an error when no such order exists (a cycle, or a dependency on an unknown id).
pub fn kahn_sort(deps: &Vec<(String, Vec<String>)>) -> (r: Result<Vec<String>, DagError>)
    requires
        pair_ids(deps@).no_duplicates(),
    ensures
        match r {
            Ok(order) => is_name_order(pair_ids(deps@), pair_deps(deps@), str_views(order@)),
            Err(_) => !name_schedulable(pair_ids(deps@), pair_deps(deps@)),
        },
{
    let mut ids: Vec<String> = Vec::new();
    let mut i: usize = 0;
    while i < deps.len()
        invariant
            0 <= i <= deps.len(),
            str_views(ids@) == pair_ids(deps@).take(i as int),
        decreases deps.len() - i,
    {
        let id = deps[i].0.clone();
        let ghost old_ids = ids@;
        ids.push(id);
        proof {
            assert(id@ == pair_ids(deps@)[i as int]);
            assert(str_views(ids@) =~= str_views(old_ids).push(id@));
            assert(str_views(ids@) =~= pair_ids(deps@).take(i as int + 1));
        }
        i += 1;
    }
    proof {
        assert(str_views(ids@) =~= pair_ids(deps@));
    }
    let mut g: Vec<Vec<usize>> = Vec::new();
    let mut j: usize = 0;
    while j < deps.len()
        invariant
            0 <= j <= deps.len(),
            str_views(ids@) == pair_ids(deps@),
            pair_ids(deps@).no_duplicates(),
            graph(g@) == resolved_graph(str_views(ids@), pair_deps(deps@)).take(j as int),
        decreases deps.len() - j,
    {
        let row = resolve_names(&ids, &deps[j].1);
        let ghost old_g = g@;
        g.push(row);
        proof {
            assert(pair_deps(deps@)[j as int] == str_views(deps@[j as int].1@));
            assert(graph(g@) =~= graph(old_g).push(row@));
            assert(graph(g@) =~= resolved_graph(str_views(ids@), pair_deps(deps@)).take(
                j as int + 1,
            ));
        }
        j += 1;
    }
    proof {
        assert(graph(g@) =~= resolved_graph(str_views(ids@), pair_deps(deps@)));
    }
    match order_by_name(&ids, &g, Ghost(pair_deps(deps@))) {
        Some(order) => Ok(order),
        None => Err(DagError::CircularDependency),
    }
}

/// The dependency structure of a workflow. Jobs are referred to by their
/// position in `jobs`.
pub struct Dag {
    /// Job ids, in workflow order.
    pub jobs: Vec<String>,
    /// Job ids in dependency-first topological order.
    pub topo_order: Vec<String>,
    /// job → its direct dependencies (must finish before job starts).
    pub deps: Vec<Vec<usize>>,
    /// job → jobs that are waiting on it, once per dependency edge.
    pub dependents: Vec<Vec<usize>>,
}

/// Ids of the jobs among the first `n` with no dependencies, in order.
pub open spec fn root_names(jobs: Seq<Seq<char>>, g: Seq<Seq<usize>>, n: int) -> Seq<Seq<char>>
    decreases n,
{
    if n <= 0 {
        Seq::empty()
    } else {
        root_names(jobs, g, n - 1) + if g[n - 1].len() == 0 {
            seq![jobs[n - 1]]
        } else {
            Seq::empty()
        }
    }
}

/// The roots among the first `n` jobs are exactly the jobs with an empty
/// dependency list: a job with a dependency is never a root, and every job
/// without one is, once.
pub proof fn lemma_roots_are_jobs_without_deps(jobs: Seq<Seq<char>>, g: Seq<Seq<usize>>, n: int)
    requires
        0 <= n <= jobs.len(),
        n <= g.len(),
    ensures
        forall|x: Seq<char>|
            #[trigger] root_names(jobs, g, n).contains(x) <==> exists|i: int|
                0 <= i < n && jobs[i] == x && (#[trigger] g[i]).len() == 0,
        jobs.no_duplicates() ==> root_names(jobs, g, n).no_duplicates(),
    decreases n,
{
    if n > 0 {
        lemma_roots_are_jobs_without_deps(jobs, g, n - 1);
        let prev = root_names(jobs, g, n - 1);
        let cur = root_names(jobs, g, n);
        assert forall|x: Seq<char>|
            #[trigger] cur.contains(x) <==> exists|i: int| 0 <= i < n && jobs[i] == x && (#[trigger] g[i]).len() == 0 by {
            if cur.contains(x) {
                let j = choose|j: int| 0 <= j < cur.len() && cur[j] == x;
                if j < prev.len() {
                    assert(prev[j] == x);
                    assert(prev.contains(x));
                    let i = choose|i: int| 0 <= i < n - 1 && jobs[i] == x && (#[trigger] g[i]).len() == 0;
                } else {
                    assert(g[n - 1].len() == 0 && x == jobs[n - 1]);
                }
            }
            if exists|i: int| 0 <= i < n && jobs[i] == x && (#[trigger] g[i]).len() == 0 {
                let i = choose|i: int| 0 <= i < n && jobs[i] == x && (#[trigger] g[i]).len() == 0;
                if i < n - 1 {
                    assert(prev.contains(x));
                    let j = choose|j: int| 0 <= j < prev.len() && prev[j] == x;
                    assert(cur[j] == x);
                } else {
                    assert(cur[cur.len() - 1] == x);
                }
            }
        }
        if jobs.no_duplicates() {
            assert forall|a: int, b: int| 0 <= a < cur.len() && 0 <= b < cur.len() && a != b implies cur[a] != cur[b] by {
                if a < prev.len() && b < prev.len() {
                    assert(prev[a] != prev[b]);
                } else {
                    let (p, q) = if a < prev.len() { (a, b) } else { (b, a) };
                    if p < prev.len() {
                        assert(cur[q] == jobs[n - 1]);
                        assert(prev.contains(prev[p]));
                        let i = choose|i: int| 0 <= i < n - 1 && jobs[i] == prev[p] && (#[trigger] g[i]).len() == 0;
                        assert(jobs[i] != jobs[n - 1]);
                        assert(cur[p] == prev[p]);
                    }
                }
            }
        }
    }
}

impl Dag {
    /// The number of jobs.
    pub open spec fn size(&self) -> int {
        self.jobs@.len() as int
    }

    /// The structural facts that `build` establishes.
    pub open spec fn well_formed(&self) -> bool {
        let n = self.jobs@.len();
        &&& self.deps@.len() == n
        &&& self.dependents@.len() == n
        &&& self.topo_order@.len() == n
        &&& str_views(self.jobs@).no_duplicates()
        &&& forall|i: int, k: int|
            0 <= i < n && 0 <= k < self.deps@[i]@.len() ==> (#[trigger] self.deps@[i]@[k]) < n
        &&& forall|d: usize, w: usize|
            d < n && w < n ==> #[trigger] count_in(self.dependents@[d as int]@, w) == count_in(
                self.deps@[w as int]@,
                d,
            )
        &&& forall|d: int, x: int|
            0 <= d < n && 0 <= x < self.dependents@[d]@.len() ==> (#[trigger] self.dependents@[d]@[x])
                < n
        &&& schedulable(graph(self.deps@))
    }

    /// Builds the dependency structure of `wf`. Fails exactly when no order
    /// runs every job after the jobs it depends on: a dependency cycle, or a
    /// dependency on a job that does not exist.
    pub fn build(wf: &Workflow) -> (r: Result<Dag, DagError>)
        ensures
            match r {
                Ok(dag) => {
                    &&& dag.well_formed()
                    &&& str_views(dag.jobs@) == job_ids(*wf)
                    &&& graph(dag.deps@) == resolved_graph(job_ids(*wf), job_dep_names(*wf))
                    &&& is_name_order(job_ids(*wf), job_dep_names(*wf), str_views(dag.topo_order@))
                },
                Err(_) => !name_schedulable(job_ids(*wf), job_dep_names(*wf)),
            },
    {
        let ghost ids_s = job_ids(*wf);
        let ghost deps_s = job_dep_names(*wf);
        let n = jobs_len(&wf.jobs);
        let mut ids: Vec<String> = Vec::new();
        let mut i: usize = 0;
        while i < n
            invariant
                n == job_entries(wf.jobs).len(),
                ids_s == job_ids(*wf),
                0 <= i <= n,
                str_views(ids@) == ids_s.take(i as int),
                str_views(ids@).no_duplicates(),
            decreases n - i,
        {
            let (key, _) = jobs_get_index(&wf.jobs, i).unwrap();
            let id = key.clone();
            let ghost old_ids = ids@;
            ids.push(id);
            proof {
                assert(id@ == ids_s[i as int]);
                assert(str_views(ids@) =~= str_views(old_ids).push(id@));
                assert(str_views(ids@) =~= ids_s.take(i as int + 1));
                assert forall|a: int, b: int|
                    0 <= a < ids@.len() && 0 <= b < ids@.len() && a != b implies str_views(ids@)[a]
                    != str_views(ids@)[b] by {
                    if a < i && b < i {
                        assert(str_views(old_ids)[a] != str_views(old_ids)[b]);
                    } else if a == i {
                        assert(job_entries(wf.jobs)[b].0@ != key@);
                    } else {
                        assert(job_entries(wf.jobs)[a].0@ != key@);
                    }
                }
            }
            i += 1;
        }
        proof {
            assert(ids_s.take(n as int) =~= ids_s);
        }
        let mut g: Vec<Vec<usize>> = Vec::new();
        let mut j: usize = 0;
        while j < n
            invariant
                n == job_entries(wf.jobs).len(),
                ids_s == job_ids(*wf),
                deps_s == job_dep_names(*wf),
                str_views(ids@) == ids_s,
                ids_s.no_duplicates(),
                0 <= j <= n,
                graph(g@) == resolved_graph(ids_s, deps_s).take(j as int),
            decreases n - j,
        {
            let (_, def) = jobs_get_index(&wf.jobs, j).unwrap();
            let row = resolve_names(&ids, &def.depends_on);
            let ghost old_g = g@;
            g.push(row);
            proof {
                assert(deps_s[j as int] == str_views(def.depends_on@));
                assert(graph(g@) =~= graph(old_g).push(row@));
                assert(graph(g@) =~= resolved_graph(ids_s, deps_s).take(j as int + 1));
            }
            j += 1;
        }
        proof {
            assert(graph(g@) =~= resolved_graph(ids_s, deps_s));
        }
        match order_by_name(&ids, &g, Ghost(deps_s)) {
            None => Err(DagError::CircularDependency),
            Some(topo_order) => {
                let dependents = dependents_lists(&g);
                proof {
                    let ord = choose|ord: Seq<usize>| is_topo_order(graph(g@), ord);
                    lemma_topo_deps_in_range(graph(g@), ord);
                    assert forall|i: int, k: int|
                        0 <= i < n && 0 <= k < g@[i]@.len() implies (#[trigger] g@[i]@[k]) < n by {
                        assert(graph(g@)[i][k] == g@[i]@[k]);
                    }
                    assert forall|d: usize, w: usize| d < n && w < n implies #[trigger] count_in(
                        dependents@[d as int]@,
                        w,
                    ) == count_in(g@[w as int]@, d) by {
                        assert(graph(g@)[w as int] == g@[w as int]@);
                    }
                }
                Ok(Dag { jobs: ids, topo_order, deps: g, dependents })
            },
        }
    }

    /// Jobs with no dependencies, which can start immediately, in workflow order.
    pub fn roots(&self) -> (r: Vec<String>)
        requires
            self.deps@.len() == self.jobs@.len(),
        ensures
            str_views(r@) == root_names(str_views(self.jobs@), graph(self.deps@), self.jobs@.len() as int),
            forall|x: Seq<char>|
                #[trigger] str_views(r@).contains(x) <==> exists|i: int|
                    0 <= i < self.jobs@.len() && self.jobs@[i]@ == x && (#[trigger] self.deps@[i]@).len() == 0,
    {
        let mut r: Vec<String> = Vec::new();
        let mut i: usize = 0;
        while i < self.jobs.len()
            invariant
                self.deps@.len() == self.jobs@.len(),
                0 <= i <= self.jobs.len(),
                str_views(r@) == root_names(str_views(self.jobs@), graph(self.deps@), i as int),
            decreases self.jobs.len() - i,
        {
            let ghost old_r = r@;
            if self.deps[i].len() == 0 {
                let id = self.jobs[i].clone();
                r.push(id);
                proof {
                    assert(str_views(r@) =~= str_views(old_r).push(id@));
                }
            }
            proof {
                assert(graph(self.deps@)[i as int] == self.deps@[i as int]@);
                assert(str_views(r@) =~= root_names(
                    str_views(self.jobs@),
                    graph(self.deps@),
                    i as int + 1,
                ));
            }
            i += 1;
        }
        proof {
            let jobs = str_views(self.jobs@);
            let g = graph(self.deps@);
            lemma_roots_are_jobs_without_deps(jobs, g, self.jobs@.len() as int);
            assert forall|x: Seq<char>|
                #[trigger] str_views(r@).contains(x) <==> exists|i: int|
                    0 <= i < self.jobs@.len() && self.jobs@[i]@ == x && (#[trigger] self.deps@[i]@).len() == 0 by {
                if str_views(r@).contains(x) {
                    let i = choose|i: int| 0 <= i < self.jobs@.len() && jobs[i] == x && (#[trigger] g[i]).len() == 0;
                    assert(self.deps@[i]@ == g[i]);
                }
                if exists|i: int| 0 <= i < self.jobs@.len() && self.jobs@[i]@ == x && (#[trigger] self.deps@[i]@).len() == 0 {
                    let i = choose|i: int| 0 <= i < self.jobs@.len() && self.jobs@[i]@ == x && (#[trigger] self.deps@[i]@).len() == 0;
                    assert(g[i] == self.deps@[i]@);
                    assert(jobs[i] == x);
                }
            }
        }
        r
    }
}

} // verus!
