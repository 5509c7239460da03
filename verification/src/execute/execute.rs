use vstd::prelude::*;

verus! {

/// The dependency lists of the jobs, by job index, as mathematical sequences.
pub open spec fn graph_view(dep_edges: &Vec<Vec<usize>>) -> Seq<Seq<usize>> {
    dep_edges@.map_values(|deps: Vec<usize>| deps@)
}

/// Job `a` depends on `b`.
pub open spec fn has_edge(g: Seq<Seq<usize>>, a: usize, b: usize) -> bool {
    (a as int) < g.len() && g[a as int].contains(b)
}

/// `p` is a walk along dependency edges with at least one edge.
pub open spec fn is_walk(g: Seq<Seq<usize>>, p: Seq<usize>) -> bool {
    &&& p.len() >= 2
    &&& forall|k: int| 0 <= k < p.len() - 1 ==> #[trigger] has_edge(g, p[k], p[k + 1])
}

/// Job `x` depends on itself, directly or through other jobs.
pub open spec fn on_cycle(g: Seq<Seq<usize>>, x: usize) -> bool {
    exists|p: Seq<usize>| #[trigger] is_walk(g, p) && p[0] == x && p.last() == x
}

/// No job depends on itself, directly or through other jobs.
pub open spec fn acyclic(g: Seq<Seq<usize>>) -> bool {
    forall|x: usize| !#[trigger] on_cycle(g, x)
}

spec fn open_count(v: Seq<bool>, c: Seq<bool>, k: int) -> nat
    decreases k,
{
    if k <= 0 {
        0
    } else {
        open_count(v, c, k - 1) + if !v[k - 1] && !c[k - 1] {
            1nat
        } else {
            0nat
        }
    }
}

proof fn lemma_open_count_mono(v1: Seq<bool>, c1: Seq<bool>, v2: Seq<bool>, c2: Seq<bool>, k: int)
    requires
        forall|i: int| 0 <= i < k ==> (v1[i] || c1[i]) ==> (v2[i] || c2[i]),
    ensures
        open_count(v2, c2, k) <= open_count(v1, c1, k),
    decreases k,
{
    if k > 0 {
        lemma_open_count_mono(v1, c1, v2, c2, k - 1);
    }
}

proof fn lemma_open_count_strict(
    v1: Seq<bool>,
    c1: Seq<bool>,
    v2: Seq<bool>,
    c2: Seq<bool>,
    k: int,
    j: int,
)
    requires
        forall|i: int| 0 <= i < k ==> (v1[i] || c1[i]) ==> (v2[i] || c2[i]),
        0 <= j < k,
        !v1[j] && !c1[j],
        v2[j] || c2[j],
    ensures
        open_count(v2, c2, k) < open_count(v1, c1, k),
    decreases k,
{
    if j < k - 1 {
        lemma_open_count_strict(v1, c1, v2, c2, k - 1, j);
    } else {
        lemma_open_count_mono(v1, c1, v2, c2, k - 1);
    }
}

/// The depth-first search state: `path` is the chain of jobs being explored,
/// `visited` marks exactly its jobs, and every cleared job has a rank above
/// the ranks of its dependencies, all of which are cleared.
spec fn dfs_state(
    g: Seq<Seq<usize>>,
    v: Seq<bool>,
    c: Seq<bool>,
    path: Seq<usize>,
    rank: Map<usize, int>,
    bound: int,
) -> bool {
    let n = g.len();
    &&& v.len() == n
    &&& c.len() == n
    &&& forall|i: int| 0 <= i < n ==> (v[i] <==> path.contains(i as usize))
    &&& forall|k: int| 0 <= k < path.len() ==> (#[trigger] path[k] as int) < n
    &&& forall|k: int| 0 <= k < path.len() - 1 ==> #[trigger] has_edge(g, path[k], path[k + 1])
    &&& forall|i: int| 0 <= i < n ==> !(v[i] && c[i])
    &&& forall|i: int|
        0 <= i < n && #[trigger] c[i] ==> {
            &&& rank.dom().contains(i as usize)
            &&& 0 <= rank[i as usize] < bound
            &&& forall|k: int|
                0 <= k < g[i].len() && (#[trigger] g[i][k] as int) < n ==> c[g[i][k] as int]
                    && rank[g[i][k]] < rank[i as usize]
        }
    &&& bound >= 0
}

/// `r` ranks the jobs so that every job ranks above each of its dependencies.
pub open spec fn is_rank(g: Seq<Seq<usize>>, r: Map<usize, int>) -> bool {
    forall|a: usize|
        (a as int) < g.len() ==> {
            &&& #[trigger] r.dom().contains(a)
            &&& r[a] >= 0
            &&& forall|k: int|
                0 <= k < g[a as int].len() && (#[trigger] g[a as int][k] as int) < g.len() ==> r[g[a as int][k]] < r[a]
        }
}

/// The jobs can be ranked so that each ranks above its dependencies.
pub open spec fn has_rank(g: Seq<Seq<usize>>) -> bool {
    exists|r: Map<usize, int>| is_rank(g, r)
}

/// Searches the jobs reachable from `node` for one that depends on itself.
fn find_cyclic_node(
    node: usize,
    dep_edges: &Vec<Vec<usize>>,
    visited: &mut Vec<bool>,
    cleared: &mut Vec<bool>,
    Ghost(path): Ghost<Seq<usize>>,
    Ghost(rank): Ghost<Map<usize, int>>,
    Ghost(bound): Ghost<int>,
) -> (res: (Option<usize>, Ghost<Map<usize, int>>, Ghost<int>))
    requires
        dfs_state(graph_view(dep_edges), old(visited)@, old(cleared)@, path, rank, bound),
        path.len() > 0 ==> has_edge(graph_view(dep_edges), path.last(), node),
    ensures
        res.0 matches Some(x) ==> on_cycle(graph_view(dep_edges), x),
        res.0 is None ==> {
            &&& dfs_state(graph_view(dep_edges), final(visited)@, final(cleared)@, path, res.1@, res.2@)
            &&& final(visited)@ == old(visited)@
            &&& (node as int) < dep_edges@.len() ==> final(cleared)@[node as int]
            &&& forall|i: int| 0 <= i < dep_edges@.len() && old(cleared)@[i] ==> #[trigger] final(cleared)@[i]
                && res.1@[i as usize] == rank[i as usize]
            &&& res.2@ >= bound
        },
        final(visited)@.len() == old(visited)@.len(),
        final(cleared)@.len() == old(cleared)@.len(),
    decreases open_count(old(visited)@, old(cleared)@, dep_edges@.len() as int),
{
    let ghost g = graph_view(dep_edges);
    let n = dep_edges.len();
    if node >= n {
        return (None, Ghost(rank), Ghost(bound));
    }
    if cleared[node] {
        return (None, Ghost(rank), Ghost(bound));
    }
    if visited[node] {
        proof {
            assert(path.contains(node));
            let i = choose|i: int| 0 <= i < path.len() && path[i] == node;
            let w = path.subrange(i, path.len() as int).push(node);
            assert(is_walk(g, w)) by {
                assert forall|k: int| 0 <= k < w.len() - 1 implies #[trigger] has_edge(g, w[k], w[k + 1]) by {
                    if k < w.len() - 2 {
                        assert(w[k] == path[i + k]);
                        assert(w[k + 1] == path[i + k + 1]);
                    } else {
                        assert(w[k] == path.last());
                    }
                }
            }
            assert(w[0] == node);
            assert(w.last() == node);
        }
        return (Some(node), Ghost(rank), Ghost(bound));
    }
    let ghost v0 = visited@;
    let ghost c0 = cleared@;
    visited.set(node, true);
    let ghost child_path = path.push(node);
    let ghost mut cur_rank = rank;
    let ghost mut cur_bound = bound;
    proof {
        assert forall|i: int| 0 <= i < n implies (visited@[i] <==> child_path.contains(i as usize)) by {
            if i == node {
                assert(child_path[child_path.len() - 1] == node);
            } else {
                if path.contains(i as usize) {
                    let k = choose|k: int| 0 <= k < path.len() && path[k] == i as usize;
                    assert(child_path[k] == i as usize);
                }
                if child_path.contains(i as usize) {
                    let k = choose|k: int| 0 <= k < child_path.len() && child_path[k] == i as usize;
                    assert(path[k] == i as usize);
                }
            }
        }
        assert forall|k: int| 0 <= k < child_path.len() - 1 implies #[trigger] has_edge(g, child_path[k], child_path[k + 1]) by {
            if k < child_path.len() - 2 {
                assert(child_path[k] == path[k]);
                assert(child_path[k + 1] == path[k + 1]);
            }
        }
        assert(dfs_state(g, visited@, cleared@, child_path, cur_rank, cur_bound));
        lemma_open_count_strict(v0, c0, visited@, cleared@, n as int, node as int);
    }
    let deps = &dep_edges[node];
    let mut j: usize = 0;
    while j < deps.len()
        invariant
            n == dep_edges@.len(),
            g == graph_view(dep_edges),
            (node as int) < n,
            deps@ == g[node as int],
            j <= deps@.len(),
            dfs_state(g, visited@, cleared@, child_path, cur_rank, cur_bound),
            visited@ == v0.update(node as int, true),
            child_path == path.push(node),
            v0 == old(visited)@,
            c0 == old(cleared)@,
            v0.len() == n,
            c0.len() == n,
            !c0[node as int],
            !cleared@[node as int],
            cur_bound >= bound,
            forall|i: int| 0 <= i < n && c0[i] ==> #[trigger] cleared@[i] && cur_rank[i as usize]
                == rank[i as usize],
            forall|k: int|
                0 <= k < j && (#[trigger] deps@[k] as int) < n ==> cleared@[deps@[k] as int]
                    && cur_rank[deps@[k]] < cur_bound,
            open_count(visited@, cleared@, n as int) < open_count(v0, c0, n as int),
        decreases deps@.len() - j,
    {
        let dep = deps[j];
        let ghost vb = visited@;
        let ghost cb = cleared@;
        let ghost rb = cur_rank;
        let ghost bb = cur_bound;
        proof {
            assert(child_path.last() == node);
            assert(g[node as int][j as int] == dep);
            assert(has_edge(g, child_path.last(), dep));
        }
        let (res, Ghost(r2), Ghost(b2)) = find_cyclic_node(
            dep,
            dep_edges,
            visited,
            cleared,
            Ghost(child_path),
            Ghost(cur_rank),
            Ghost(cur_bound),
        );
        if res.is_some() {
            return (res, Ghost(r2), Ghost(b2));
        }
        proof {
            cur_rank = r2;
            cur_bound = b2;
            assert forall|i: int| 0 <= i < n && c0[i] implies #[trigger] cleared@[i] && cur_rank[i as usize]
                == rank[i as usize] by {
                assert(cb[i]);
            }
            assert forall|k: int|
                0 <= k < j + 1 && (#[trigger] deps@[k] as int) < n implies cleared@[deps@[k] as int]
                    && cur_rank[deps@[k]] < cur_bound by {
                let d = deps@[k];
                if k < j {
                    assert(cb[d as int]);
                    assert(cleared@[d as int]);
                    assert(cur_rank[d] == rb[d]);
                } else {
                    assert(d == dep);
                    assert(cleared@[d as int]);
                }
            }
            assert(!cleared@[node as int]) by {
                assert(visited@[node as int]);
            }
            lemma_open_count_mono(vb, cb, visited@, cleared@, n as int);
        }
        j = j + 1;
    }
    proof {
        assert(cur_rank.dom().contains(node) ==> true);
    }
    let ghost new_rank = cur_rank.insert(node, cur_bound);
    let ghost new_bound = cur_bound + 1;
    let ghost cl = cleared@;
    cleared.set(node, true);
    visited.set(node, false);
    proof {
        assert(visited@ =~= v0);
        assert forall|i: int| 0 <= i < n && #[trigger] cleared@[i] implies {
            &&& new_rank.dom().contains(i as usize)
            &&& 0 <= new_rank[i as usize] < new_bound
            &&& forall|k: int|
                0 <= k < g[i].len() && (#[trigger] g[i][k] as int) < n ==> cleared@[g[i][k] as int]
                    && new_rank[g[i][k]] < new_rank[i as usize]
        } by {
            if i == node {
                assert forall|k: int|
                    0 <= k < g[i].len() && (#[trigger] g[i][k] as int) < n implies cleared@[g[i][k] as int]
                        && new_rank[g[i][k]] < new_rank[i as usize] by {
                    assert(deps@[k] == g[i][k]);
                    assert(g[i][k] != node) by {
                        assert(!cleared@.update(node as int, false)[node as int]);
                    }
                }
            } else {
                assert(visited@[i] == v0[i]);
            }
        }
        assert(dfs_state(g, visited@, cleared@, path, new_rank, new_bound));
        assert forall|i: int| 0 <= i < n && c0[i] implies #[trigger] cleared@[i]
            && new_rank[i as usize] == rank[i as usize] by {
            assert(i != node);
            assert(cl[i]);
            assert(cur_rank[i as usize] == rank[i as usize]);
        }
        assert(cleared@[node as int]);
    }
    (None, Ghost(new_rank), Ghost(new_bound))
}


proof fn lemma_walk_ranks_decrease(
    g: Seq<Seq<usize>>,
    c: Seq<bool>,
    rank: Map<usize, int>,
    bound: int,
    p: Seq<usize>,
    k: int,
)
    requires
        dfs_state(g, Seq::new(g.len(), |i: int| false), c, seq![], rank, bound),
        forall|i: int| 0 <= i < g.len() ==> #[trigger] c[i],
        is_walk(g, p),
        1 <= k < p.len(),
        (p[k] as int) < g.len(),
    ensures
        rank[p[k]] < rank[p[0]],
    decreases k,
{
    let j0 = k - 1;
    assert(has_edge(g, p[j0], p[j0 + 1]));
    let a = p[k - 1];
    assert(c[a as int]);
    let idx = choose|j: int| 0 <= j < g[a as int].len() && g[a as int][j] == p[k];
    assert(g[a as int][idx] == p[k]);
    if k > 1 {
        lemma_walk_ranks_decrease(g, c, rank, bound, p, k - 1);
    }
}

proof fn lemma_cleared_graph_is_acyclic(
    g: Seq<Seq<usize>>,
    c: Seq<bool>,
    rank: Map<usize, int>,
    bound: int,
)
    requires
        dfs_state(g, Seq::new(g.len(), |i: int| false), c, seq![], rank, bound),
        forall|i: int| 0 <= i < g.len() ==> #[trigger] c[i],
    ensures
        acyclic(g),
{
    assert forall|x: usize| !#[trigger] on_cycle(g, x) by {
        if on_cycle(g, x) {
            let p = choose|p: Seq<usize>| #[trigger] is_walk(g, p) && p[0] == x && p.last() == x;
            let z: int = 0;
            assert(has_edge(g, p[z], p[z + 1]));
            assert((p.last() as int) < g.len());
            lemma_walk_ranks_decrease(g, c, rank, bound, p, p.len() - 1);
        }
    }
}

/// Looks for a job that depends on itself, directly or through other jobs.
/// Dependencies on jobs that are not in the graph end a path.
pub fn has_cycle(dep_edges: &Vec<Vec<usize>>) -> (res: Option<usize>)
    ensures
        res matches Some(x) ==> on_cycle(graph_view(dep_edges), x),
        res is None <==> acyclic(graph_view(dep_edges)),
        res is None ==> has_rank(graph_view(dep_edges)),
{
    let ghost g = graph_view(dep_edges);
    let n = dep_edges.len();
    let mut visited: Vec<bool> = Vec::new();
    let mut cleared: Vec<bool> = Vec::new();
    let mut i: usize = 0;
    while i < n
        invariant
            n == dep_edges@.len(),
            i <= n,
            visited@ == Seq::new(i as nat, |k: int| false),
            cleared@ == Seq::new(i as nat, |k: int| false),
        decreases n - i,
    {
        visited.push(false);
        cleared.push(false);
        proof {
            assert(visited@ =~= Seq::new(i as nat + 1, |k: int| false));
            assert(cleared@ =~= Seq::new(i as nat + 1, |k: int| false));
        }
        i = i + 1;
    }
    let ghost mut rank: Map<usize, int> = Map::empty();
    let ghost mut bound: int = 0;
    proof {
        assert(g.len() == n);
        assert(dfs_state(g, visited@, cleared@, seq![], rank, bound));
    }
    let mut node: usize = 0;
    while node < n
        invariant
            n == dep_edges@.len(),
            g == graph_view(dep_edges),
            node <= n,
            visited@ == Seq::new(n as nat, |k: int| false),
            dfs_state(g, visited@, cleared@, seq![], rank, bound),
            forall|k: int| 0 <= k < node ==> #[trigger] cleared@[k],
        decreases n - node,
    {
        let ghost cb = cleared@;
        let (res, Ghost(r2), Ghost(b2)) = find_cyclic_node(
            node,
            dep_edges,
            &mut visited,
            &mut cleared,
            Ghost(Seq::empty()),
            Ghost(rank),
            Ghost(bound),
        );
        if res.is_some() {
            proof {
                let x = res->0;
                assert(!acyclic(g)) by {
                    assert(on_cycle(g, x));
                }
            }
            return res;
        }
        proof {
            rank = r2;
            bound = b2;
            assert forall|k: int| 0 <= k < node + 1 implies #[trigger] cleared@[k] by {
                if k < node {
                    assert(cb[k]);
                }
            }
        }
        node = node + 1;
    }
    proof {
        lemma_cleared_graph_is_acyclic(g, cleared@, rank, bound);
        assert(is_rank(g, rank)) by {
            assert forall|a: usize| (a as int) < g.len() implies {
                &&& #[trigger] rank.dom().contains(a)
                &&& rank[a] >= 0
                &&& forall|k: int|
                    0 <= k < g[a as int].len() && (#[trigger] g[a as int][k] as int) < g.len() ==> rank[g[a as int][k]] < rank[a]
            } by {
                assert(cleared@[a as int]);
            }
        }
    }
    None
}


/// Every dependency is an index below `num_ids`.
pub open spec fn deps_below(g: Seq<Seq<usize>>, num_ids: nat) -> bool {
    forall|a: int, k: int| 0 <= a < g.len() && 0 <= k < g[a].len() ==> (#[trigger] g[a][k] as int) < num_ids
}

/// For each job or dependency index, the jobs that depend on it.
pub fn compute_reverse_dependency_edges(dep_edges: &Vec<Vec<usize>>, num_ids: usize) -> (rev: Vec<Vec<usize>>)
    requires
        dep_edges@.len() <= num_ids,
        deps_below(graph_view(dep_edges), num_ids as nat),
    ensures
        rev@.len() == num_ids,
        forall|d: int, j: usize|
            0 <= d < num_ids ==> (#[trigger] rev@[d]@.contains(j) <==> has_edge(
                graph_view(dep_edges),
                j,
                d as usize,
            )),
        forall|d: int, j: int|
            0 <= d < num_ids && 0 <= j < dep_edges@.len() ==> #[trigger] rev@[d]@.to_multiset().count(j as usize)
                == dep_edges@[j]@.to_multiset().count(d as usize),
{
    let ghost g = graph_view(dep_edges);
    let mut rev: Vec<Vec<usize>> = Vec::new();
    let mut i: usize = 0;
    while i < num_ids
        invariant
            i <= num_ids,
            rev@.len() == i,
            forall|d: int| 0 <= d < i ==> (#[trigger] rev@[d])@.len() == 0,
        decreases num_ids - i,
    {
        rev.push(Vec::new());
        i = i + 1;
    }
    proof {
        broadcast use vstd::seq_lib::group_to_multiset_ensures;
        assert forall|d: int, jj: usize| 0 <= d < num_ids implies #[trigger] rev@[d]@.to_multiset().count(jj) == 0 by {
            assert(rev@[d]@ =~= Seq::<usize>::empty());
        }
    }
    let n = dep_edges.len();
    let mut j: usize = 0;
    while j < n
        invariant
            n == dep_edges@.len(),
            g == graph_view(dep_edges),
            n <= num_ids,
            deps_below(g, num_ids as nat),
            j <= n,
            rev@.len() == num_ids,
            forall|d: int, jj: usize|
                0 <= d < num_ids ==> (#[trigger] rev@[d]@.contains(jj) <==> ((jj as int) < j
                    && has_edge(g, jj, d as usize))),
            forall|d: int, jj: usize|
                0 <= d < num_ids ==> #[trigger] rev@[d]@.to_multiset().count(jj) == if (jj as int) < j {
                    g[jj as int].to_multiset().count(d as usize)
                } else {
                    0
                },
        decreases n - j,
    {
        let deps = &dep_edges[j];
        let mut k: usize = 0;
        proof {
            broadcast use vstd::seq_lib::group_to_multiset_ensures;
            assert forall|d: usize| #[trigger] deps@.take(0).to_multiset().count(d) == 0 by {
                assert(!deps@.take(0).contains(d));
            }
        }
        while k < deps.len()
            invariant
                n == dep_edges@.len(),
                g == graph_view(dep_edges),
                n <= num_ids,
                deps_below(g, num_ids as nat),
                j < n,
                deps@ == g[j as int],
                k <= deps@.len(),
                rev@.len() == num_ids,
                forall|d: int, jj: usize|
                    0 <= d < num_ids ==> (#[trigger] rev@[d]@.contains(jj) <==> (((jj as int) < j
                        && has_edge(g, jj, d as usize)) || (jj == j && deps@.take(k as int).contains(
                        d as usize,
                    )))),
                forall|d: int, jj: usize|
                    0 <= d < num_ids ==> #[trigger] rev@[d]@.to_multiset().count(jj) == if (jj as int) < j {
                        g[jj as int].to_multiset().count(d as usize)
                    } else if jj == j {
                        deps@.take(k as int).to_multiset().count(d as usize)
                    } else {
                        0
                    },
            decreases deps@.len() - k,
        {
            let d = deps[k];
            proof {
                assert(g[j as int][k as int] == d);
            }
            let ghost before = rev@;
            let mut inner: Vec<usize> = Vec::new();
            std::mem::swap(&mut inner, &mut rev[d]);
            proof {
                assert(inner@ == before[d as int]@);
            }
            inner.push(j);
            rev.set(d, inner);
            proof {
                assert forall|dd: int, jj: usize| 0 <= dd < num_ids implies (#[trigger] rev@[dd]@.contains(jj)
                    <==> (((jj as int) < j && has_edge(g, jj, dd as usize)) || (jj == j
                    && deps@.take(k as int + 1).contains(dd as usize)))) by {
                    let t0 = deps@.take(k as int);
                    let t1 = deps@.take(k as int + 1);
                    assert(t1 =~= t0.push(d));
                    assert(t1.contains(d)) by {
                        assert(t1[k as int] == d);
                    }
                    assert(t1.contains(dd as usize) ==> t0.contains(dd as usize) || dd == d) by {
                        if t1.contains(dd as usize) {
                            let x = choose|x: int| 0 <= x < t1.len() && t1[x] == dd as usize;
                            if x < k {
                                assert(t0[x] == dd as usize);
                            }
                        }
                    }
                    assert(t0.contains(dd as usize) ==> t1.contains(dd as usize)) by {
                        if t0.contains(dd as usize) {
                            let x = choose|x: int| 0 <= x < t0.len() && t0[x] == dd as usize;
                            assert(t1[x] == dd as usize);
                        }
                    }
                    if dd == d {
                        assert(rev@[dd]@ =~= before[dd]@.push(j));
                        assert(rev@[dd]@.contains(jj) <==> (before[dd]@.contains(jj) || jj == j)) by {
                            if rev@[dd]@.contains(jj) {
                                let x = choose|x: int| 0 <= x < rev@[dd]@.len() && rev@[dd]@[x] == jj;
                                if x < before[dd]@.len() {
                                    assert(before[dd]@[x] == jj);
                                }
                            }
                            if before[dd]@.contains(jj) {
                                let x = choose|x: int| 0 <= x < before[dd]@.len() && before[dd]@[x] == jj;
                                assert(rev@[dd]@[x] == jj);
                            }
                            if jj == j {
                                assert(rev@[dd]@[before[dd]@.len() as int] == jj);
                            }
                        }
                    } else {
                        assert(rev@[dd] == before[dd]);
                    }
                }
                broadcast use vstd::seq_lib::group_to_multiset_ensures;
                assert forall|dd: int, jj: usize| 0 <= dd < num_ids implies #[trigger] rev@[dd]@.to_multiset().count(jj)
                    == if (jj as int) < j {
                    g[jj as int].to_multiset().count(dd as usize)
                } else if jj == j {
                    deps@.take(k as int + 1).to_multiset().count(dd as usize)
                } else {
                    0
                } by {
                    let t0 = deps@.take(k as int);
                    let t1 = deps@.take(k as int + 1);
                    assert(t1 =~= t0.push(d));
                    assert(t1.to_multiset() =~= t0.to_multiset().insert(d));
                    if dd == d {
                        assert(rev@[dd]@ =~= before[dd]@.push(j));
                        assert(rev@[dd]@.to_multiset() =~= before[dd]@.to_multiset().insert(j));
                    } else {
                        assert(rev@[dd] == before[dd]);
                    }
                }
            }
            k = k + 1;
        }
        proof {
            assert(deps@.take(deps@.len() as int) =~= deps@);
            assert forall|d: int, jj: usize| 0 <= d < num_ids implies (#[trigger] rev@[d]@.contains(jj)
                <==> ((jj as int) < j + 1 && has_edge(g, jj, d as usize))) by {
            }
            assert forall|d: int, jj: usize| 0 <= d < num_ids implies #[trigger] rev@[d]@.to_multiset().count(jj)
                == if (jj as int) < j + 1 {
                g[jj as int].to_multiset().count(d as usize)
            } else {
                0
            } by {
                if jj == j {
                    assert(deps@ == g[j as int]);
                }
            }
        }
        j = j + 1;
    }
    proof {
        assert forall|d: int, jj: int| 0 <= d < num_ids && 0 <= jj < dep_edges@.len() implies #[trigger] rev@[d]@.to_multiset().count(
            jj as usize,
        ) == dep_edges@[jj]@.to_multiset().count(d as usize) by {
            assert(g[jj] == dep_edges@[jj]@);
        }
    }
    rev
}

/// The first dependency, in job order, that is not one of the `num_jobs` jobs.
pub fn has_missing_dependencies(num_jobs: usize, dep_edges: &Vec<Vec<usize>>) -> (res: Option<(usize, usize)>)
    ensures
        res matches Some((j, d)) ==> has_edge(graph_view(dep_edges), j, d) && d >= num_jobs,
        res is None <==> deps_below(graph_view(dep_edges), num_jobs as nat),
{
    let ghost g = graph_view(dep_edges);
    let mut j: usize = 0;
    while j < dep_edges.len()
        invariant
            g == graph_view(dep_edges),
            j <= dep_edges@.len(),
            forall|a: int, k: int| 0 <= a < j && 0 <= k < g[a].len() ==> (#[trigger] g[a][k] as int) < num_jobs,
        decreases dep_edges@.len() - j,
    {
        let deps = &dep_edges[j];
        let mut k: usize = 0;
        while k < deps.len()
            invariant
                g == graph_view(dep_edges),
                j < dep_edges@.len(),
                deps@ == g[j as int],
                k <= deps@.len(),
                forall|a: int, kk: int| 0 <= a < j && 0 <= kk < g[a].len() ==> (#[trigger] g[a][kk] as int) < num_jobs,
                forall|kk: int| 0 <= kk < k ==> (#[trigger] deps@[kk] as int) < num_jobs,
            decreases deps@.len() - k,
        {
            if deps[k] >= num_jobs {
                proof {
                    assert(g[j as int][k as int] == deps@[k as int]);
                    assert(g[j as int].contains(deps@[k as int]));
                    assert(!deps_below(g, num_jobs as nat));
                }
                return Some((j, deps[k]));
            }
            k = k + 1;
        }
        j = j + 1;
    }
    None
}


/// Every dependency of job `j` is marked in `c`.
pub open spec fn deps_done(g: Seq<Seq<usize>>, c: Seq<bool>, j: int) -> bool {
    forall|k: int| 0 <= k < g[j].len() ==> c[#[trigger] g[j][k] as int]
}

/// Why a job graph cannot be run.
#[derive(Debug)]
pub enum GraphError {
    /// The job depends on itself, directly or through other jobs.
    Cycle(usize),
    /// The job (first) depends on an index (second) that is not a job.
    MissingDependency(usize, usize),
}

pub open spec fn count_true(s: Seq<bool>) -> nat
    decreases s.len(),
{
    if s.len() == 0 {
        0
    } else {
        count_true(s.drop_last()) + if s.last() {
            1nat
        } else {
            0nat
        }
    }
}

proof fn lemma_count_true_bounds(s: Seq<bool>)
    ensures
        count_true(s) <= s.len(),
        count_true(s) == s.len() <==> forall|i: int| 0 <= i < s.len() ==> #[trigger] s[i],
    decreases s.len(),
{
    if s.len() > 0 {
        lemma_count_true_bounds(s.drop_last());
        if count_true(s) == s.len() {
            assert forall|i: int| 0 <= i < s.len() implies #[trigger] s[i] by {
                if i < s.len() - 1 {
                    assert(s.drop_last()[i] == s[i]);
                }
            }
        }
        if forall|i: int| 0 <= i < s.len() ==> #[trigger] s[i] {
            assert forall|i: int| 0 <= i < s.drop_last().len() implies #[trigger] s.drop_last()[i] by {
                assert(s[i]);
            }
            assert(s[s.len() - 1]);
        }
    }
}

proof fn lemma_count_true_set(s: Seq<bool>, j: int)
    requires
        0 <= j < s.len(),
        !s[j],
    ensures
        count_true(s.update(j, true)) == count_true(s) + 1,
    decreases s.len(),
{
    if j < s.len() - 1 {
        lemma_count_true_set(s.drop_last(), j);
        assert(s.update(j, true).drop_last() =~= s.drop_last().update(j, true));
    } else {
        assert(s.update(j, true).drop_last() =~= s.drop_last());
    }
}

/// Decides which jobs of a job graph can be started: a job is started once
/// all of its dependencies have completed, and each job is started once.
pub struct JobScheduler {
    dep_edges: Vec<Vec<usize>>,
    rev_edges: Vec<Vec<usize>>,
    remaining: Vec<bool>,
    completed: Vec<bool>,
    num_completed: usize,
    rank: Ghost<Map<usize, int>>,
}

impl JobScheduler {
    /// The dependency lists of the jobs.
    pub closed spec fn graph(&self) -> Seq<Seq<usize>> {
        graph_view(&self.dep_edges)
    }

    /// The jobs that have not been started yet.
    pub closed spec fn remaining(&self) -> Seq<bool> {
        self.remaining@
    }

    /// The jobs that have completed.
    pub closed spec fn completed(&self) -> Seq<bool> {
        self.completed@
    }

    pub open spec fn num_jobs(&self) -> nat {
        self.graph().len()
    }

    /// The job has been started and has not completed yet.
    pub open spec fn in_progress(&self, j: int) -> bool {
        !self.remaining()[j] && !self.completed()[j]
    }

    /// All dependencies of job `j` have completed.
    pub open spec fn deps_completed(&self, j: int) -> bool {
        deps_done(self.graph(), self.completed(), j)
    }

    pub closed spec fn wf(&self) -> bool {
        let g = self.graph();
        let n = g.len();
        &&& n <= usize::MAX
        &&& self.remaining@.len() == n
        &&& self.completed@.len() == n
        &&& self.rev_edges@.len() == n
        &&& deps_below(g, n)
        &&& forall|d: int, j: usize|
            0 <= d < n ==> (#[trigger] self.rev_edges@[d]@.contains(j) <==> has_edge(g, j, d as usize))
        &&& is_rank(g, self.rank@)
        &&& forall|j: int| 0 <= j < n && #[trigger] self.completed@[j] ==> !self.remaining@[j]
        &&& forall|j: int|
            0 <= j < n && #[trigger] self.remaining@[j] ==> exists|k: int|
                0 <= k < g[j].len() && !self.completed@[#[trigger] g[j][k] as int]
        &&& self.num_completed == count_true(self.completed@)
    }

    /// Checks the graph and returns the scheduler with the jobs that can be
    /// started at once: those without dependencies.  A graph in which a job
    /// depends on itself is refused first, then one with a dependency that is
    /// not a job.
    pub fn new(dep_edges: Vec<Vec<usize>>) -> (r: Result<(JobScheduler, Vec<usize>), GraphError>)
        ensures
            r matches Err(GraphError::Cycle(x)) ==> on_cycle(graph_view(&dep_edges), x),
            (r matches Err(GraphError::Cycle(_))) <==> !acyclic(graph_view(&dep_edges)),
            r matches Err(GraphError::MissingDependency(j, d)) ==> has_edge(graph_view(&dep_edges), j, d)
                && d >= dep_edges@.len(),
            (r matches Err(GraphError::MissingDependency(_, _))) <==> acyclic(graph_view(&dep_edges))
                && !deps_below(graph_view(&dep_edges), dep_edges@.len()),
            r matches Ok((s, first)) ==> {
                &&& s.wf()
                &&& s.graph() == graph_view(&dep_edges)
                &&& forall|j: int| 0 <= j < s.num_jobs() ==> !#[trigger] s.completed()[j]
                &&& forall|j: usize|
                    (j as int) < s.num_jobs() ==> (#[trigger] first@.contains(j) <==> s.graph()[j as int].len()
                        == 0)
                &&& forall|j: usize| #[trigger] first@.contains(j) ==> (j as int) < s.num_jobs()
                &&& forall|j: int| 0 <= j < s.num_jobs() ==> (#[trigger] s.remaining()[j] <==> !first@.contains(j as usize))
                &&& first@.no_duplicates()
            },
    {
        let ghost g = graph_view(&dep_edges);
        let n = dep_edges.len();
        if let Some(x) = has_cycle(&dep_edges) {
            return Err(GraphError::Cycle(x));
        }
        if let Some((j, d)) = has_missing_dependencies(n, &dep_edges) {
            return Err(GraphError::MissingDependency(j, d));
        }
        let ghost rank = choose|r: Map<usize, int>| is_rank(g, r);
        let rev_edges = compute_reverse_dependency_edges(&dep_edges, n);
        let mut remaining: Vec<bool> = Vec::new();
        let mut completed: Vec<bool> = Vec::new();
        let mut first: Vec<usize> = Vec::new();
        let mut j: usize = 0;
        while j < n
            invariant
                n == dep_edges@.len(),
                g == graph_view(&dep_edges),
                j <= n,
                remaining@.len() == j,
                completed@ == Seq::new(j as nat, |i: int| false),
                forall|i: int| 0 <= i < j ==> (#[trigger] remaining@[i] <==> g[i].len() > 0),
                forall|x: usize| #[trigger] first@.contains(x) <==> ((x as int) < j && g[x as int].len() == 0),
                first@.no_duplicates(),
            decreases n - j,
        {
            let has_deps = dep_edges[j].len() > 0;
            remaining.push(has_deps);
            completed.push(false);
            let ghost first_before = first@;
            if !has_deps {
                proof {
                    assert(!first@.contains(j));
                }
                first.push(j);
                proof {
                    assert forall|x: usize| #[trigger] first@.contains(x) <==> (first_before.contains(x) || x == j) by {
                        lemma_contains_push_other(first_before, j, x);
                    }
                }
            }
            proof {
                assert(completed@ =~= Seq::new(j as nat + 1, |i: int| false));
                assert(g[j as int] == dep_edges@[j as int]@);
            }
            j = j + 1;
        }
        proof {
            assert forall|i: int| 0 <= i < j implies !#[trigger] completed@[i] by {}
            assert(count_true(completed@) == 0) by {
                lemma_count_zero(completed@);
            }
            assert forall|jj: int| 0 <= jj < n && #[trigger] remaining@[jj] implies exists|k: int|
                0 <= k < g[jj].len() && !completed@[#[trigger] g[jj][k] as int] by {
                assert((g[jj][0] as int) < n);
                assert(!completed@[g[jj][0] as int]);
            }
            assert forall|jj: int| 0 <= jj < n implies (#[trigger] remaining@[jj] <==> !first@.contains(jj as usize)) by {}
        }
        let s = JobScheduler { dep_edges, rev_edges, remaining, completed, num_completed: 0, rank: Ghost(rank) };
        Ok((s, first))
    }

    /// Records that `job` has completed and returns the jobs that can be
    /// started now: those that depend on it, have not been started, and whose
    /// dependencies have all completed.
    pub fn job_completed(&mut self, job: usize) -> (dispatch: Vec<usize>)
        requires
            old(self).wf(),
            (job as int) < old(self).num_jobs(),
            !old(self).remaining()[job as int],
        ensures
            final(self).wf(),
            final(self).graph() == old(self).graph(),
            final(self).completed() == old(self).completed().update(job as int, true),
            forall|x: usize|
                #[trigger] dispatch@.contains(x) <==> ((x as int) < old(self).num_jobs()
                    && old(self).remaining()[x as int] && has_edge(old(self).graph(), x, job)
                    && final(self).deps_completed(x as int)),
            forall|x: int|
                0 <= x < old(self).num_jobs() ==> (#[trigger] final(self).remaining()[x] <==> (old(
                    self,
                ).remaining()[x] && !dispatch@.contains(x as usize))),
            dispatch@.no_duplicates(),
    {
        let ghost g = self.graph();
        let ghost n = g.len();
        let ghost old_remaining = self.remaining@;
        let ghost old_completed = self.completed@;
        if !self.completed[job] {
            proof {
                lemma_count_true_set(self.completed@, job as int);
                lemma_count_true_bounds(self.completed@.update(job as int, true));
            }
            assert(self.completed@.len() == self.completed.len());
            self.completed.set(job, true);
            self.num_completed = self.num_completed + 1;
        }
        let ghost cc = old_completed.update(job as int, true);
        proof {
            assert(self.completed@ =~= cc);
        }
        let mut dispatch: Vec<usize> = Vec::new();
        proof {
            assert(self.remaining@.len() == self.remaining.len());
        }
        let fwd = self.rev_edges[job].clone();
        proof {
            assert(fwd@ == self.rev_edges@[job as int]@);
        }
        let mut k: usize = 0;
        while k < fwd.len()
            invariant
                self.graph() == g,
                n == g.len(),
                (job as int) < n,
                self.remaining@.len() == n,
                self.completed@.len() == n,
                self.completed@ == old_completed.update(job as int, true),
                cc == old_completed.update(job as int, true),
                n <= usize::MAX,
                self.rev_edges@.len() == n,
                deps_below(g, n),
                forall|d: int, j: usize|
                    0 <= d < n ==> (#[trigger] self.rev_edges@[d]@.contains(j) <==> has_edge(g, j, d as usize)),
                is_rank(g, self.rank@),
                self.num_completed == count_true(self.completed@),
                fwd@ == self.rev_edges@[job as int]@,
                k <= fwd@.len(),
                forall|i: int|
                    0 <= i < n ==> (#[trigger] self.remaining@[i] <==> (old_remaining[i] && !dispatch@.contains(
                        i as usize,
                    ))),
                forall|x: usize|
                    #[trigger] dispatch@.contains(x) <==> (fwd@.take(k as int).contains(x) && (x as int) < n
                        && old_remaining[x as int] && deps_done(g, cc, x as int)),
                dispatch@.no_duplicates(),
            decreases fwd@.len() - k,
        {
            let x = fwd[k];
            proof {
                assert(fwd@.contains(x)) by {
                    assert(fwd@[k as int] == x);
                }
                assert(has_edge(g, x, job));
                assert(fwd@.take(k as int + 1) =~= fwd@.take(k as int).push(x));
            }
            if self.remaining[x] && self.all_deps_completed(x) {
                let ghost before_dispatch = dispatch@;
                let ghost rem_before = self.remaining@;
                self.remaining.set(x, false);
                dispatch.push(x);
                proof {
                    assert(!before_dispatch.contains(x));
                    assert(old_remaining[x as int]);
                    assert(deps_done(g, cc, x as int));
                    lemma_contains_push_other(fwd@.take(k as int), x, x);
                    assert forall|i: int| 0 <= i < n && i != x as int implies self.remaining@[i] == rem_before[i] by {}
                    assert forall|y: usize| #[trigger] dispatch@.contains(y) <==> (fwd@.take(k as int + 1).contains(y)
                        && (y as int) < n && old_remaining[y as int] && deps_done(g, cc, y as int)) by {
                        if y == x {
                            assert(dispatch@[dispatch@.len() - 1] == x);
                        } else {
                            if dispatch@.contains(y) {
                                let z = choose|z: int| 0 <= z < dispatch@.len() && dispatch@[z] == y;
                                assert(before_dispatch[z] == y);
                            }
                            if before_dispatch.contains(y) {
                                let z = choose|z: int| 0 <= z < before_dispatch.len() && before_dispatch[z] == y;
                                assert(dispatch@[z] == y);
                            }
                            lemma_contains_push_other(fwd@.take(k as int), x, y);
                        }
                    }
                    assert forall|i: int| 0 <= i < n implies (#[trigger] self.remaining@[i] <==> (old_remaining[i]
                        && !dispatch@.contains(i as usize))) by {
                        if i != x as int {
                            assert(self.remaining@[i] == rem_before[i]);
                            assert(rem_before[i] <==> (old_remaining[i] && !before_dispatch.contains(i as usize)));
                            assert(dispatch@ == before_dispatch.push(x));
                            lemma_contains_push_other(before_dispatch, x, i as usize);
                            assert(dispatch@.contains(i as usize) <==> before_dispatch.contains(i as usize));
                        } else {
                            assert(dispatch@[dispatch@.len() - 1] == x);
                            assert(self.remaining@ == rem_before.update(x as int, false));
                            assert(!self.remaining@[i]);
                        }
                    }
                }
            } else {
                proof {
                    assert forall|y: usize| #[trigger] dispatch@.contains(y) <==> (fwd@.take(k as int + 1).contains(y)
                        && (y as int) < n && old_remaining[y as int] && deps_done(g, cc, y as int)) by {
                        lemma_contains_push_other(fwd@.take(k as int), x, y);
                        if y == x && fwd@.take(k as int + 1).contains(y) && old_remaining[y as int] && deps_done(g, cc, y as int) {
                            if !self.remaining@[x as int] {
                                assert(dispatch@.contains(x));
                            }
                        }
                    }
                }
            }
            k = k + 1;
        }
        proof {
            assert(fwd@.take(fwd@.len() as int) =~= fwd@);
            assert(self.remaining@[job as int] == false) by {
                assert(!old_remaining[job as int]);
            }
            assert forall|j: int| 0 <= j < n && #[trigger] self.remaining@[j] implies exists|kk: int|
                0 <= kk < g[j].len() && !self.completed@[#[trigger] g[j][kk] as int] by {
                assert(old_remaining[j]);
                if has_edge(g, j as usize, job) {
                    assert(self.rev_edges@[job as int]@.contains(j as usize));
                    assert(fwd@.contains(j as usize));
                    assert(!dispatch@.contains(j as usize));
                    assert(!deps_done(g, cc, j));
                } else {
                    let kk = choose|kk: int| 0 <= kk < g[j].len() && !old_completed[#[trigger] g[j][kk] as int];
                    if g[j][kk] == job {
                        assert(g[j].contains(job));
                    }
                    assert(!self.completed@[g[j][kk] as int]);
                }
            }
            assert forall|j: int| 0 <= j < n && #[trigger] self.completed@[j] implies !self.remaining@[j] by {
                if j != job as int {
                    assert(old_completed[j]);
                }
            }
        }
        dispatch
    }

    fn all_deps_completed(&self, x: usize) -> (b: bool)
        requires
            (x as int) < self.graph().len(),
            self.completed@.len() == self.graph().len(),
            deps_below(self.graph(), self.graph().len()),
        ensures
            b == self.deps_completed(x as int),
    {
        let deps = &self.dep_edges[x];
        let mut k: usize = 0;
        while k < deps.len()
            invariant
                deps@ == self.graph()[x as int],
                (x as int) < self.graph().len(),
                self.completed@.len() == self.graph().len(),
                deps_below(self.graph(), self.graph().len()),
                k <= deps@.len(),
                forall|kk: int| 0 <= kk < k ==> self.completed@[#[trigger] deps@[kk] as int],
            decreases deps@.len() - k,
        {
            proof {
                assert((self.graph()[x as int][k as int] as int) < self.graph().len());
            }
            if !self.completed[deps[k]] {
                return false;
            }
            k = k + 1;
        }
        true
    }

    /// Every job has completed.
    pub fn is_complete(&self) -> (b: bool)
        requires
            self.wf(),
        ensures
            b <==> forall|j: int| 0 <= j < self.num_jobs() ==> #[trigger] self.completed()[j],
    {
        proof {
            lemma_count_true_bounds(self.completed@);
            assert(self.completed@.len() == self.completed.len());
            assert(self.completed() == self.completed@);
        }
        self.num_completed == self.completed.len()
    }
}

proof fn lemma_find_in_progress(s: &JobScheduler, j: int)
    requires
        s.wf(),
        0 <= j < s.num_jobs(),
        !s.completed()[j],
    ensures
        exists|x: int| 0 <= x < s.num_jobs() && #[trigger] s.in_progress(x),
    decreases s.rank@[j as usize],
{
    let g = s.graph();
    if !s.remaining@[j] {
        assert(s.in_progress(j));
    } else {
        let k = choose|k: int| 0 <= k < g[j].len() && !s.completed@[#[trigger] g[j][k] as int];
        let d = g[j][k] as int;
        assert((g[j][k] as int) < g.len());
        let a = j as usize;
        assert(s.rank@.dom().contains(a));
        assert(a as int == j);
        assert((g[a as int][k] as int) < g.len());
        assert(s.rank@[g[a as int][k]] < s.rank@[a]);
        assert(s.rank@.dom().contains(d as usize));
        lemma_find_in_progress(s, d);
    }
}

/// While some job has not completed, some job is running: the scheduler
/// never waits for a completion that cannot come.
pub proof fn law_scheduler_never_stalls(s: &JobScheduler)
    requires
        s.wf(),
        exists|j: int| 0 <= j < s.num_jobs() && !#[trigger] s.completed()[j],
    ensures
        exists|x: int| 0 <= x < s.num_jobs() && #[trigger] s.in_progress(x),
{
    let j = choose|j: int| 0 <= j < s.num_jobs() && !#[trigger] s.completed()[j];
    lemma_find_in_progress(s, j);
}

proof fn lemma_contains_push_other(s: Seq<usize>, x: usize, y: usize)
    ensures
        s.push(x).contains(y) <==> (s.contains(y) || y == x),
{
    if s.push(x).contains(y) {
        let z = choose|z: int| 0 <= z < s.push(x).len() && s.push(x)[z] == y;
        if z < s.len() {
            assert(s[z] == y);
        }
    }
    if s.contains(y) {
        let z = choose|z: int| 0 <= z < s.len() && s[z] == y;
        assert(s.push(x)[z] == y);
    }
    if y == x {
        assert(s.push(x)[s.len() as int] == y);
    }
}

proof fn lemma_count_zero(s: Seq<bool>)
    requires
        forall|i: int| 0 <= i < s.len() ==> !#[trigger] s[i],
    ensures
        count_true(s) == 0,
    decreases s.len(),
{
    if s.len() > 0 {
        assert forall|i: int| 0 <= i < s.drop_last().len() implies !#[trigger] s.drop_last()[i] by {
            assert(!s[i]);
        }
        lemma_count_zero(s.drop_last());
        assert(!s[s.len() - 1]);
    }
}

/// The id of the job that checks tool `tool_name`.
pub open spec fn tool_check_job_id(tool_name: Seq<char>) -> Seq<char> {
    "tool_check:"@ + tool_name
}

/// The id of the job that runs an action of build environment `env_name`.
pub open spec fn env_action_job_id(env_name: Seq<char>) -> Seq<char> {
    "env_action:"@ + env_name
}

/// The name of the job that cleans task `task_name`.
pub open spec fn clean_task_name(task_name: Seq<char>) -> Seq<char> {
    "clean:"@ + task_name
}

pub fn get_tool_check_job_id(tool_name: &str) -> (r: String)
    ensures
        r@ == tool_check_job_id(tool_name@),
{
    let mut job_name = String::from_str("tool_check:");
    job_name.append(tool_name);
    job_name
}

pub fn get_env_action_job_id(env_name: &str) -> (r: String)
    ensures
        r@ == env_action_job_id(env_name@),
{
    let mut job_name = String::from_str("env_action:");
    job_name.append(env_name);
    job_name
}

pub fn get_clean_task_name(task_name: &str) -> (r: String)
    ensures
        r@ == clean_task_name(task_name@),
{
    let mut clean_task_name = String::from_str("clean:");
    clean_task_name.append(task_name);
    clean_task_name
}

/// Different tools get different check jobs, different environments
/// different action jobs, and different tasks different clean jobs.
pub proof fn law_job_ids_are_distinct(a: Seq<char>, b: Seq<char>)
    requires
        a != b,
    ensures
        tool_check_job_id(a) != tool_check_job_id(b),
        env_action_job_id(a) != env_action_job_id(b),
        clean_task_name(a) != clean_task_name(b),
{
    let p = "tool_check:"@;
    let q = "env_action:"@;
    let c = "clean:"@;
    assert((p + a).skip(p.len() as int) =~= a);
    assert((p + b).skip(p.len() as int) =~= b);
    assert((q + a).skip(q.len() as int) =~= a);
    assert((q + b).skip(q.len() as int) =~= b);
    assert((c + a).skip(c.len() as int) =~= a);
    assert((c + b).skip(c.len() as int) =~= b);
}

/// A tool check job never has the id of an environment action job or of a
/// clean job.
pub proof fn law_job_kinds_do_not_collide(a: Seq<char>, b: Seq<char>)
    ensures
        tool_check_job_id(a) != env_action_job_id(b),
        tool_check_job_id(a) != clean_task_name(b),
        env_action_job_id(a) != clean_task_name(b),
{
    reveal_strlit("tool_check:");
    reveal_strlit("env_action:");
    reveal_strlit("clean:");
    assert(tool_check_job_id(a)[0] == 't');
    assert(env_action_job_id(b)[0] == 'e');
    assert(clean_task_name(b)[0] == 'c');
    assert(env_action_job_id(a)[0] == 'e');
}

} // verus!
