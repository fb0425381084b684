//! Dependency-resolution engine.
//!
//! Three interchangeable strategies search the dependency graph: a linear
//! Eulerian feasibility check, a backtracking Hamiltonian path search
//! bounded by a wall-clock timeout, and an A* optimal-path search with
//! uniform hop cost. A hybrid strategy composes the three as an ordered
//! fallback chain.

use crate::fault::FaultState;
use crate::graph::{
    in_neighbors_of, lemma_in_neighbors_of, lemma_out_neighbors_of, out_neighbors_of,
    DependencyGraph,
};
use crate::keys::str_eq;
use vstd::pervasive::VecAdditionalExecFns;
use vstd::prelude::*;

verus! {

/// Strategy requested of, or reported by, the resolution engine.
#[derive(Debug, Clone, Copy, PartialEq, Eq, Structural)]
pub enum ResolutionStrategy {
    Eulerian,
    Hamiltonian,
    AStar,
    Hybrid,
}

/// Failures of the resolution engine.
#[derive(Debug, Clone, PartialEq, Eq)]
pub enum ResolverError {
    /// A named identifier is not a node of the graph: a caller error,
    /// surfaced immediately.
    NodeNotFound(String),
    /// The graph holds both endpoints but no directed walk between them: a
    /// reported, non-fatal negative result.
    NoPathFound { start: String, goal: String },
    /// Every fallback of a composed strategy was exhausted.
    ResolutionFailed { strategy: ResolutionStrategy, reason: String },
}

/// A resolved walk through the graph and its accumulated cost.
#[derive(Debug, Clone)]
pub struct Path {
    pub nodes: Vec<String>,
    pub cost: u64,
}

/// Relies on std::time::SystemTime::now: a reading of the wall clock,
/// converted to whole milliseconds since the epoch; nothing is promised of
/// the value.
#[verifier::external_body]
fn now_millis() -> (r: u64) {
    std::time::SystemTime::now()
        .duration_since(std::time::UNIX_EPOCH)
        .map(|d| d.as_millis() as u64)
        .unwrap_or(0)
}

/// Undirected adjacency: an edge joins `u` and `v` in either direction.
pub open spec fn adj_undir(edges: Seq<(int, int)>, u: int, v: int) -> bool {
    edges.contains((u, v)) || edges.contains((v, u))
}

/// `p` walks from `u` to `v` along edges taken in either direction.
pub open spec fn is_undir_path(edges: Seq<(int, int)>, p: Seq<int>, u: int, v: int) -> bool {
    &&& p.len() > 0
    &&& p[0] == u
    &&& p.last() == v
    &&& (forall|t: int| 0 <= t < p.len() - 1 ==> adj_undir(edges, #[trigger] p[t], p[t + 1]))
}

/// `v` is reachable from `u` over the underlying undirected graph.
pub open spec fn connected_undir(edges: Seq<(int, int)>, u: int, v: int) -> bool {
    exists|p: Seq<int>| is_undir_path(edges, p, u, v)
}

/// `p` walks from `u` to `v` along directed edges.
pub open spec fn is_dir_path(edges: Seq<(int, int)>, p: Seq<int>, u: int, v: int) -> bool {
    &&& p.len() > 0
    &&& p[0] == u
    &&& p.last() == v
    &&& (forall|t: int| 0 <= t < p.len() - 1 ==> edges.contains((#[trigger] p[t], p[t + 1])))
}

/// `v` is reachable from `u` along directed edges.
pub open spec fn dir_reach(edges: Seq<(int, int)>, u: int, v: int) -> bool {
    exists|p: Seq<int>| is_dir_path(edges, p, u, v)
}

/// Node `i` has as many incoming as outgoing edges.
pub open spec fn balanced_at(edges: Seq<(int, int)>, i: int) -> bool {
    out_neighbors_of(edges, i).len() == in_neighbors_of(edges, i).len()
}

/// Every node's in-degree equals its out-degree.
pub open spec fn all_balanced(edges: Seq<(int, int)>, n: int) -> bool {
    forall|i: int| 0 <= i < n ==> balanced_at(edges, i)
}

/// Every node is reachable from node zero over the underlying undirected
/// graph; an empty graph counts as connected.
pub open spec fn euler_connected(edges: Seq<(int, int)>, n: int) -> bool {
    forall|i: int| 0 <= i < n ==> connected_undir(edges, 0, i)
}

/// Number of nodes below `k` whose in- and out-degree differ.
pub open spec fn unbalanced_count(edges: Seq<(int, int)>, k: nat) -> int
    decreases k,
{
    if k == 0 {
        0
    } else {
        unbalanced_count(edges, (k - 1) as nat) + if balanced_at(edges, k - 1) {
            0int
        } else {
            1int
        }
    }
}

/// Node `i`'s in- and out-degree differ by exactly one.
pub open spec fn off_by_one(edges: Seq<(int, int)>, i: int) -> bool {
    let o = out_neighbors_of(edges, i).len() as int;
    let it = in_neighbors_of(edges, i).len() as int;
    o - it == 1 || it - o == 1
}

/// The graph admits an Eulerian circuit: connected and everywhere balanced.
pub open spec fn fully_eulerian(edges: Seq<(int, int)>, n: int) -> bool {
    euler_connected(edges, n) && all_balanced(edges, n)
}

/// The graph admits at best an Eulerian path: connected, with exactly two
/// nodes out of balance, each by exactly one edge.
pub open spec fn semi_eulerian(edges: Seq<(int, int)>, n: int) -> bool {
    &&& euler_connected(edges, n)
    &&& unbalanced_count(edges, n as nat) == 2
    &&& (forall|i: int| 0 <= i < n && !balanced_at(edges, i) ==> off_by_one(edges, i))
}

/// Any set of nodes that contains `u` and is closed under undirected steps
/// contains everything `u` reaches.
proof fn lemma_closed_undir(edges: Seq<(int, int)>, vis: Seq<bool>, p: Seq<int>, u: int, v: int)
    requires
        is_undir_path(edges, p, u, v),
        0 <= u < vis.len(),
        vis[u],
        forall|e: (int, int)| #[trigger]
            edges.contains(e) ==> 0 <= e.0 < vis.len() && 0 <= e.1 < vis.len(),
        forall|x: int, y: int|
            0 <= x < vis.len() && vis[x] && adj_undir(edges, x, y) ==> 0 <= y < vis.len()
                && vis[y],
    ensures
        0 <= v < vis.len() && vis[v],
    decreases p.len(),
{
    if p.len() == 1 {
    } else {
        let y = p[1];
        assert(adj_undir(edges, p[0], p[1]));
        assert(0 <= y < vis.len() && vis[y]);
        let q = p.drop_first();
        assert(is_undir_path(edges, q, y, v)) by {
            assert(forall|t: int|
                0 <= t < q.len() - 1 ==> q[t] == p[t + 1] && #[trigger] q[t + 1] == p[t + 2]);
            assert(forall|t: int|
                0 <= t < q.len() - 1 ==> adj_undir(edges, #[trigger] q[t], q[t + 1]));
        }
        lemma_closed_undir(edges, vis, q, y, v);
    }
}

/// Any set of nodes that contains `u` and is closed under directed steps
/// contains everything `u` reaches.
proof fn lemma_closed_dir(edges: Seq<(int, int)>, vis: Seq<bool>, p: Seq<int>, u: int, v: int)
    requires
        is_dir_path(edges, p, u, v),
        0 <= u < vis.len(),
        vis[u],
        forall|e: (int, int)| #[trigger]
            edges.contains(e) ==> 0 <= e.0 < vis.len() && 0 <= e.1 < vis.len(),
        forall|x: int, y: int|
            0 <= x < vis.len() && vis[x] && edges.contains((x, y)) ==> 0 <= y < vis.len()
                && vis[y],
    ensures
        0 <= v < vis.len() && vis[v],
    decreases p.len(),
{
    if p.len() == 1 {
    } else {
        let y = p[1];
        assert(edges.contains((p[0], p[1])));
        assert(0 <= y < vis.len() && vis[y]);
        let q = p.drop_first();
        assert(is_dir_path(edges, q, y, v)) by {
            assert(forall|t: int|
                0 <= t < q.len() - 1 ==> q[t] == p[t + 1] && #[trigger] q[t + 1] == p[t + 2]);
            assert(forall|t: int|
                0 <= t < q.len() - 1 ==> edges.contains((#[trigger] q[t], q[t + 1])));
        }
        lemma_closed_dir(edges, vis, q, y, v);
    }
}

/// One undirected step extends reachability.
proof fn lemma_reach_step_undir(edges: Seq<(int, int)>, u: int, v: int, w: int)
    requires
        connected_undir(edges, u, v),
        adj_undir(edges, v, w),
    ensures
        connected_undir(edges, u, w),
{
    let p = choose|p: Seq<int>| is_undir_path(edges, p, u, v);
    let q = p.push(w);
    assert(q.last() == w);
    assert(forall|t: int| 0 <= t < p.len() ==> q[t] == p[t]);
    assert(is_undir_path(edges, q, u, w)) by {
        assert(forall|t: int|
            0 <= t < q.len() - 1 ==> adj_undir(edges, #[trigger] q[t], q[t + 1]));
    }
}

/// One directed step extends reachability.
proof fn lemma_reach_step_dir(edges: Seq<(int, int)>, u: int, v: int, w: int)
    requires
        dir_reach(edges, u, v),
        edges.contains((v, w)),
    ensures
        dir_reach(edges, u, w),
{
    let p = choose|p: Seq<int>| is_dir_path(edges, p, u, v);
    let q = p.push(w);
    assert(q.last() == w);
    assert(forall|t: int| 0 <= t < p.len() ==> q[t] == p[t]);
    assert(is_dir_path(edges, q, u, w)) by {
        assert(forall|t: int|
            0 <= t < q.len() - 1 ==> edges.contains((#[trigger] q[t], q[t + 1])));
    }
}

/// Number of `false` entries in a mark vector.
pub open spec fn count_false(s: Seq<bool>) -> int
    decreases s.len(),
{
    if s.len() == 0 {
        0
    } else {
        count_false(s.drop_last()) + if s.last() {
            0int
        } else {
            1int
        }
    }
}

proof fn lemma_count_false_update(s: Seq<bool>, i: int)
    requires
        0 <= i < s.len(),
        !s[i],
    ensures
        count_false(s.update(i, true)) == count_false(s) - 1,
    decreases s.len(),
{
    if i == s.len() - 1 {
        assert(s.update(i, true).drop_last() =~= s.drop_last());
    } else {
        assert(s.update(i, true).drop_last() =~= s.drop_last().update(i, true));
        lemma_count_false_update(s.drop_last(), i);
    }
}

proof fn lemma_count_false_nonneg(s: Seq<bool>)
    ensures
        0 <= count_false(s) <= s.len(),
    decreases s.len(),
{
    if s.len() > 0 {
        lemma_count_false_nonneg(s.drop_last());
    }
}

fn mark(vis: &mut Vec<bool>, i: usize)
    requires
        i < old(vis)@.len(),
        !old(vis)@[i as int],
    ensures
        final(vis)@ == old(vis)@.update(i as int, true),
        count_false(final(vis)@) == count_false(old(vis)@) - 1,
{
    proof {
        lemma_count_false_update(vis@, i as int);
    }
    vis.set(i, true);
}

/// Marks every node reachable from node zero over the underlying
/// undirected graph, and nothing else.
#[verifier::loop_isolation(false)]
#[verifier::rlimit(100)]
fn undirected_reach(g: &DependencyGraph) -> (vis: Vec<bool>)
    requires
        g.inv(),
        g.nodes().len() > 0,
    ensures
        vis@.len() == g.nodes().len(),
        forall|i: int| 0 <= i < vis@.len() ==> (vis@[i] <==> connected_undir(g.edges(), 0, i)),
{
    let ghost edges = g.edges();
    proof {
        g.lemma_inv_facts();
    }
    let n = g.node_count();
    let mut vis: Vec<bool> = Vec::new();
    let mut k: usize = 0;
    while k < n
        invariant
            k <= n,
            vis@.len() == k,
            forall|i: int| 0 <= i < k ==> !vis@[i],
        decreases n - k,
    {
        vis.push(false);
        k += 1;
    }
    let mut stack: Vec<usize> = Vec::new();
    proof {
        let witness = seq![0int];
        assert(is_undir_path(edges, witness, 0, 0));
        lemma_count_false_nonneg(vis@);
    }
    mark(&mut vis, 0);
    stack.push(0);
    proof {
        assert(stack@[0] == 0usize);
        assert(stack@.contains(0usize));
        assert(forall|i: int| 0 < i < n ==> !vis@[i]);
    }
    while stack.len() > 0
        invariant
            vis@.len() == n,
            vis@[0],
            forall|k2: int|
                0 <= k2 < stack@.len() ==> (#[trigger] stack@[k2] as int) < n
                    && vis@[stack@[k2] as int],
            forall|a: int, b: int| 0 <= a < b < stack@.len() ==> stack@[a] != stack@[b],
            forall|i: int| 0 <= i < n && #[trigger] vis@[i] ==> connected_undir(edges, 0, i),
            forall|x: int, y: int|
                0 <= x < n && vis@[x] && !stack@.contains(x as usize) && adj_undir(edges, x, y)
                    && 0 <= y < n ==> vis@[y],
        decreases count_false(vis@), stack@.len(),
    {
        let ghost vis_head = vis@;
        let ghost stack_head = stack@;
        let x = stack.pop().unwrap();
        proof {
            assert(stack_head[stack_head.len() - 1] == x);
            assert(vis@[x as int]);
            assert forall|e: usize| stack_head.contains(e) && e != x implies #[trigger] stack@.contains(e) by {
                let idx = choose|idx: int| 0 <= idx < stack_head.len() && stack_head[idx] == e;
                assert(stack@[idx] == e);
            }
        }
        let outs = g.out_neighbors_idx(x);
        let ins = g.in_neighbors_idx(x);
        let ghost m_out = outs@.map_values(|t: usize| t as int);
        let ghost m_in = ins@.map_values(|t: usize| t as int);
        proof {
            lemma_out_neighbors_of(edges, x as int);
            lemma_in_neighbors_of(edges, x as int);
        }
        let mut j: usize = 0;
        let no = outs.len();
        while j < no
            invariant
                j <= no,
                vis@.len() == n,
                vis@[x as int],
                forall|m: int| 0 <= m < j ==> vis@[#[trigger] outs@[m] as int],
                forall|k2: int|
                    0 <= k2 < stack@.len() ==> (#[trigger] stack@[k2] as int) < n
                        && vis@[stack@[k2] as int],
                forall|a: int, b: int| 0 <= a < b < stack@.len() ==> stack@[a] != stack@[b],
                forall|i: int| 0 <= i < n && #[trigger] vis@[i] ==> connected_undir(edges, 0, i),
                forall|x2: int, y: int|
                    0 <= x2 < n && vis@[x2] && !stack@.contains(x2 as usize) && x2 != x as int
                        && adj_undir(edges, x2, y) && 0 <= y < n ==> vis@[y],
                forall|e: usize| vis_head[e as int] && stack_head.contains(e) && e != x ==> #[trigger] stack@.contains(e),
                forall|i: int| 0 <= i < n && vis_head[i] ==> vis@[i],
                count_false(vis@) + stack@.len() <= count_false(vis_head) + stack_head.len() - 1,
                count_false(vis@) <= count_false(vis_head),
            decreases no - j,
        {
            let y = outs[j];
            proof {
                assert(m_out[j as int] == y as int);
                assert(m_out.contains(y as int));
                assert(edges.contains((x as int, y as int)));
            }
            let ghost stack_pre = stack@;
            let ghost vis_pre = vis@;
            if !vis[y] {
                proof {
                    assert(connected_undir(edges, 0, x as int));
                    lemma_reach_step_undir(edges, 0, x as int, y as int);
                }
                mark(&mut vis, y);
                stack.push(y);
            }
            proof {
                assert forall|e: usize| #[trigger] stack_pre.contains(e) implies stack@.contains(e) by {
                    let idx = choose|idx: int| 0 <= idx < stack_pre.len() && stack_pre[idx] == e;
                    assert(stack@[idx] == e);
                }
                assert forall|e: usize|
                    vis_head[e as int] && stack_head.contains(e) && e != x implies #[trigger] stack@.contains(
                    e,
                ) by {
                    assert(stack_pre.contains(e));
                }
                assert forall|x2: int, y2: int|
                    0 <= x2 < n && vis@[x2] && !stack@.contains(x2 as usize) && x2 != x as int
                        && adj_undir(edges, x2, y2) && 0 <= y2 < n implies vis@[y2] by {
                    if vis_pre[x2] {
                        assert(!stack_pre.contains(x2 as usize));
                    } else {
                        assert(stack@.last() == y);
                        assert(stack@.contains(y));
                        assert(x2 == y as int);
                    }
                }
                assert forall|a: int, b: int|
                    0 <= a < b < stack@.len() implies stack@[a] != stack@[b] by {
                    if b == stack@.len() - 1 && stack@.len() != stack_pre.len() {
                        assert(stack@[a] == stack_pre[a]);
                        assert(vis_pre[stack_pre[a] as int]);
                        assert(!vis_pre[y as int]);
                    } else {
                        assert(stack@[a] == stack_pre[a] && stack@[b] == stack_pre[b]);
                    }
                }
            }
            j += 1;
        }
        let mut j2: usize = 0;
        let ni = ins.len();
        while j2 < ni
            invariant
                j2 <= ni,
                vis@.len() == n,
                vis@[x as int],
                forall|m: int| 0 <= m < no ==> vis@[#[trigger] outs@[m] as int],
                forall|m: int| 0 <= m < j2 ==> vis@[#[trigger] ins@[m] as int],
                forall|k2: int|
                    0 <= k2 < stack@.len() ==> (#[trigger] stack@[k2] as int) < n
                        && vis@[stack@[k2] as int],
                forall|a: int, b: int| 0 <= a < b < stack@.len() ==> stack@[a] != stack@[b],
                forall|i: int| 0 <= i < n && #[trigger] vis@[i] ==> connected_undir(edges, 0, i),
                forall|x2: int, y: int|
                    0 <= x2 < n && vis@[x2] && !stack@.contains(x2 as usize) && x2 != x as int
                        && adj_undir(edges, x2, y) && 0 <= y < n ==> vis@[y],
                forall|e: usize| vis_head[e as int] && stack_head.contains(e) && e != x ==> #[trigger] stack@.contains(e),
                forall|i: int| 0 <= i < n && vis_head[i] ==> vis@[i],
                count_false(vis@) + stack@.len() <= count_false(vis_head) + stack_head.len() - 1,
                count_false(vis@) <= count_false(vis_head),
            decreases ni - j2,
        {
            let y = ins[j2];
            proof {
                assert(m_in[j2 as int] == y as int);
                assert(m_in.contains(y as int));
                assert(edges.contains((y as int, x as int)));
            }
            let ghost stack_pre = stack@;
            let ghost vis_pre = vis@;
            if !vis[y] {
                proof {
                    assert(connected_undir(edges, 0, x as int));
                    lemma_reach_step_undir(edges, 0, x as int, y as int);
                }
                mark(&mut vis, y);
                stack.push(y);
            }
            proof {
                assert forall|e: usize| #[trigger] stack_pre.contains(e) implies stack@.contains(e) by {
                    let idx = choose|idx: int| 0 <= idx < stack_pre.len() && stack_pre[idx] == e;
                    assert(stack@[idx] == e);
                }
                assert forall|e: usize|
                    vis_head[e as int] && stack_head.contains(e) && e != x implies #[trigger] stack@.contains(
                    e,
                ) by {
                    assert(stack_pre.contains(e));
                }
                assert forall|x2: int, y2: int|
                    0 <= x2 < n && vis@[x2] && !stack@.contains(x2 as usize) && x2 != x as int
                        && adj_undir(edges, x2, y2) && 0 <= y2 < n implies vis@[y2] by {
                    if vis_pre[x2] {
                        assert(!stack_pre.contains(x2 as usize));
                    } else {
                        assert(stack@.last() == y);
                        assert(stack@.contains(y));
                        assert(x2 == y as int);
                    }
                }
                assert forall|a: int, b: int|
                    0 <= a < b < stack@.len() implies stack@[a] != stack@[b] by {
                    if b == stack@.len() - 1 && stack@.len() != stack_pre.len() {
                        assert(stack@[a] == stack_pre[a]);
                        assert(vis_pre[stack_pre[a] as int]);
                        assert(!vis_pre[y as int]);
                    } else {
                        assert(stack@[a] == stack_pre[a] && stack@[b] == stack_pre[b]);
                    }
                }
            }
            j2 += 1;
        }
        proof {
            assert forall|x2: int, y: int|
                0 <= x2 < n && vis@[x2] && !stack@.contains(x2 as usize) && adj_undir(
                    edges,
                    x2,
                    y,
                ) && 0 <= y < n implies vis@[y] by {
                if x2 == x as int {
                    if edges.contains((x2, y)) {
                        assert(out_neighbors_of(edges, x2).contains(y));
                        let m = choose|m: int| 0 <= m < m_out.len() && m_out[m] == y;
                        assert(outs@[m] as int == y);
                        assert(vis@[outs@[m] as int]);
                    } else {
                        assert(edges.contains((y, x2)));
                        assert(in_neighbors_of(edges, x2).contains(y));
                        let m = choose|m: int| 0 <= m < m_in.len() && m_in[m] == y;
                        assert(ins@[m] as int == y);
                        assert(vis@[ins@[m] as int]);
                    }
                }
            }
            lemma_count_false_nonneg(vis@);
        }
    }
    proof {
        assert(stack@.len() == 0);
        assert forall|x: int, y: int|
            0 <= x < vis@.len() && vis@[x] && adj_undir(edges, x, y) implies 0 <= y < vis@.len()
            && vis@[y] by {
            assert(!stack@.contains(x as usize)) by {
                if stack@.contains(x as usize) {
                    let idx = choose|idx: int|
                        0 <= idx < stack@.len() && stack@[idx] == x as usize;
                }
            }
            if edges.contains((x, y)) {
            } else {
                assert(edges.contains((y, x)));
            }
            assert(0 <= y < n);
            assert(vis@[y]);
        }
        assert forall|i: int|
            0 <= i < vis@.len() && connected_undir(edges, 0, i) implies vis@[i] by {
            let p = choose|p: Seq<int>| is_undir_path(edges, p, 0, i);
            lemma_closed_undir(edges, vis@, p, 0, i);
        }
    }
    vis
}

/// Whether the dependency graph is fully Eulerian: every node reachable
/// from the first over the underlying undirected graph, and every node's
/// in-degree equal to its out-degree.
pub fn is_eulerian(graph: &DependencyGraph) -> (r: bool)
    requires
        graph.inv(),
    ensures
        r <==> fully_eulerian(graph.edges(), graph.nodes().len() as int),
{
    let n = graph.node_count();
    if n == 0 {
        return true;
    }
    let vis = undirected_reach(graph);
    let mut i: usize = 0;
    while i < n
        invariant
            graph.inv(),
            n == graph.nodes().len(),
            vis@.len() == n,
            i <= n,
            forall|k: int| 0 <= k < vis@.len() ==> (vis@[k] <==> connected_undir(
                graph.edges(),
                0,
                k,
            )),
            forall|k: int| 0 <= k < i ==> connected_undir(graph.edges(), 0, k),
        decreases n - i,
    {
        if !vis[i] {
            proof {
                assert(!connected_undir(graph.edges(), 0, i as int));
                assert(!euler_connected(graph.edges(), graph.nodes().len() as int));
            }
            return false;
        }
        i += 1;
    }
    let mut i2: usize = 0;
    while i2 < n
        invariant
            graph.inv(),
            n == graph.nodes().len(),
            i2 <= n,
            euler_connected(graph.edges(), n as int),
            forall|k: int| 0 <= k < i2 ==> balanced_at(graph.edges(), k),
        decreases n - i2,
    {
        let outs = graph.out_neighbors_idx(i2);
        let ins = graph.in_neighbors_idx(i2);
        if outs.len() != ins.len() {
            proof {
                assert(outs@.map_values(|t: usize| t as int).len() == outs@.len());
                assert(ins@.map_values(|t: usize| t as int).len() == ins@.len());
                assert(!balanced_at(graph.edges(), i2 as int));
                assert(!all_balanced(graph.edges(), graph.nodes().len() as int));
            }
            return false;
        }
        i2 += 1;
    }
    true
}


/// A Hamiltonian path of an `n`-node graph: every node exactly once, each
/// consecutive pair joined by a directed edge.
pub open spec fn is_ham_path(edges: Seq<(int, int)>, n: int, p: Seq<int>) -> bool {
    &&& p.len() == n
    &&& (forall|t: int| 0 <= t < p.len() ==> 0 <= #[trigger] p[t] < n)
    &&& (forall|a: int, b: int| 0 <= a < b < p.len() ==> p[a] != p[b])
    &&& (forall|t: int| 0 <= t < p.len() - 1 ==> edges.contains((#[trigger] p[t], p[t + 1])))
}

proof fn lemma_count_false_unset(s: Seq<bool>, i: int)
    requires
        0 <= i < s.len(),
        s[i],
    ensures
        count_false(s.update(i, false)) == count_false(s) + 1,
    decreases s.len(),
{
    if i == s.len() - 1 {
        assert(s.update(i, false).drop_last() =~= s.drop_last());
    } else {
        assert(s.update(i, false).drop_last() =~= s.drop_last().update(i, false));
        lemma_count_false_unset(s.drop_last(), i);
    }
}

fn unmark(vis: &mut Vec<bool>, i: usize)
    requires
        i < old(vis)@.len(),
        old(vis)@[i as int],
    ensures
        final(vis)@ == old(vis)@.update(i as int, false),
        count_false(final(vis)@) == count_false(old(vis)@) + 1,
{
    proof {
        lemma_count_false_unset(vis@, i as int);
    }
    vis.set(i, false);
}

/// Identifiers of a sequence of node indices, in order.
fn indices_to_ids(g: &DependencyGraph, idxs: &Vec<usize>) -> (r: Vec<String>)
    requires
        g.inv(),
        forall|t: int| 0 <= t < idxs@.len() ==> (#[trigger] idxs@[t] as int) < g.nodes().len(),
    ensures
        r.deep_view() == idxs@.map_values(|u: usize| u as int).map_values(
            |x: int| g.nodes()[x],
        ),
        r@.len() == idxs@.len(),
{
    let mut out: Vec<String> = Vec::new();
    let mut k: usize = 0;
    let n = idxs.len();
    while k < n
        invariant
            g.inv(),
            n == idxs@.len(),
            k <= n,
            forall|t: int| 0 <= t < idxs@.len() ==> (#[trigger] idxs@[t] as int) < g.nodes().len(),
            out@.len() == k,
            out.deep_view() =~= idxs@.map_values(|u: usize| u as int).take(k as int).map_values(
                |x: int| g.nodes()[x],
            ),
        decreases n - k,
    {
        let ghost dv0 = out.deep_view();
        let id_k = g.id_at(idxs[k]);
        out.push(id_k);
        proof {
            let mapped = idxs@.map_values(|u: usize| u as int);
            assert(out.deep_view() =~= dv0.push(id_k@));
            assert(mapped.take(k + 1) =~= mapped.take(k as int).push(mapped[k as int]));
            assert(mapped.take(k + 1).map_values(|x: int| g.nodes()[x]) =~= mapped.take(
                k as int,
            ).map_values(|x: int| g.nodes()[x]).push(g.nodes()[mapped[k as int]]));
            assert(out.deep_view() =~= mapped.take(k + 1).map_values(|x: int| g.nodes()[x]));
        }
        k += 1;
    }
    proof {
        let mapped = idxs@.map_values(|u: usize| u as int);
        assert(mapped.take(n as int) =~= mapped);
    }
    out
}

/// Invariant of one backtracking step: the stack is a simple directed walk
/// of marked nodes, and the marks count the walk exactly.
#[verifier::opaque]
pub open spec fn dfs_state_ok(edges: Seq<(int, int)>, n: int, vis: Seq<bool>, path: Seq<usize>) -> bool {
    &&& vis.len() == n
    &&& 1 <= path.len() <= n
    &&& (forall|t: int| 0 <= t < path.len() ==> (#[trigger] path[t] as int) < n)
    &&& (forall|a: int, b: int| 0 <= a < b < path.len() ==> path[a] != path[b])
    &&& (forall|t: int|
        0 <= t < path.len() - 1 ==> edges.contains(((#[trigger] path[t]) as int, path[t + 1] as int)))
    &&& (forall|t: int| 0 <= t < path.len() ==> vis[#[trigger] path[t] as int])
    &&& count_false(vis) == n - path.len()
}

#[verifier::rlimit(100)]
fn hamiltonian_dfs(
    g: &DependencyGraph,
    current: usize,
    vis: &mut Vec<bool>,
    path: &mut Vec<usize>,
    start_ms: u64,
    timeout_ms: u64,
) -> (r: bool)
    requires
        g.inv(),
        (current as int) < g.nodes().len(),
        old(path)@.last() == current,
        dfs_state_ok(g.edges(), g.nodes().len() as int, old(vis)@, old(path)@),
    ensures
        r ==> is_ham_path(
            g.edges(),
            g.nodes().len() as int,
            final(path)@.map_values(|u: usize| u as int),
        ),
        !r ==> final(path)@ == old(path)@ && final(vis)@ == old(vis)@,
    decreases count_false(old(vis)@),
{
    let now = now_millis();
    if now >= start_ms && now - start_ms > timeout_ms {
        return false;
    }
    let n = g.node_count();
    if path.len() == n {
        proof {
            reveal(dfs_state_ok);
            let m = path@.map_values(|u: usize| u as int);
            assert(m.len() == n);
            assert(forall|t: int| 0 <= t < m.len() ==> 0 <= #[trigger] m[t] < n);
            assert(forall|a: int, b: int| 0 <= a < b < m.len() ==> m[a] != m[b]) by {
                assert(forall|a: int, b: int|
                    0 <= a < b < path@.len() ==> path@[a] != path@[b]);
            }
            assert(forall|t: int|
                0 <= t < m.len() - 1 ==> g.edges().contains((#[trigger] m[t], m[t + 1])));
        }
        return true;
    }
    proof {
        assert(vis@.len() == n && 1 <= path@.len() <= n && count_false(vis@) == n - path@.len()) by {
            reveal(dfs_state_ok);
        }
        lemma_count_false_nonneg(vis@);
    }
    let outs = g.out_neighbors_idx(current);
    let ghost m_out = outs@.map_values(|t: usize| t as int);
    proof {
        lemma_out_neighbors_of(g.edges(), current as int);
    }
    let mut j: usize = 0;
    let no = outs.len();
    while j < no
        invariant
            g.inv(),
            n == g.nodes().len(),
            j <= no,
            no == outs@.len(),
            vis@ == old(vis)@,
            path@ == old(path)@,
            (current as int) < n,
            path@.len() < n,
            path@.last() == current,
            m_out == outs@.map_values(|t: usize| t as int),
            m_out == out_neighbors_of(g.edges(), current as int),
            forall|m: int| 0 <= m < no ==> (#[trigger] outs@[m] as int) < n,
            dfs_state_ok(g.edges(), n as int, vis@, path@),
        decreases no - j,
    {
        let y = outs[j];
        proof {
            assert(m_out[j as int] == y as int);
            assert(m_out.contains(y as int));
            lemma_out_neighbors_of(g.edges(), current as int);
            assert(g.edges().contains((current as int, y as int)));
            assert(vis@.len() == n && path@.len() >= 1) by {
                reveal(dfs_state_ok);
            }
        }
        if !vis[y] {
            let ghost vis_pre = vis@;
            let ghost path_pre = path@;
            proof {
                assert(forall|t: int|
                    0 <= t < path@.len() ==> path@[t] != y) by {
                    reveal(dfs_state_ok);
                }
                assert(!vis@[y as int]);
            }
            mark(vis, y);
            path.push(y);
            proof {
                lemma_count_false_nonneg(vis@);
                assert(dfs_state_ok(g.edges(), n as int, vis@, path@) && path@.len() <= n) by {
                    reveal(dfs_state_ok);
                    assert(forall|t: int|
                        0 <= t < path_pre.len() ==> path@[t] == path_pre[t]);
                }
            }
            if hamiltonian_dfs(g, y, vis, path, start_ms, timeout_ms) {
                return true;
            }
            let _ = path.pop();
            unmark(vis, y);
            proof {
                assert(path@ =~= path_pre);
                assert(vis@ =~= vis_pre);
            }
        }
        j += 1;
    }
    false
}

/// Backtracking Hamiltonian path search, bounded by a wall-clock timeout
/// in milliseconds.
///
/// A returned path visits every node of the graph exactly once along
/// directed edges. An empty graph yields the empty path. `None` reports
/// that no such path was found before the timeout struck.
#[verifier::loop_isolation(false)]
#[verifier::rlimit(100)]
pub fn find_hamiltonian_path(graph: &DependencyGraph, timeout_ms: u64) -> (r: Option<Vec<String>>)
    requires
        graph.inv(),
    ensures
        r matches Some(p) ==> exists|ip: Seq<int>|
            is_ham_path(graph.edges(), graph.nodes().len() as int, ip) && p.deep_view()
                == ip.map_values(|x: int| graph.nodes()[x]),
        graph.nodes().len() == 0 ==> (r matches Some(p) && p@.len() == 0),
{
    let start_ms = now_millis();
    let n = graph.node_count();
    if n == 0 {
        let empty: Vec<String> = Vec::new();
        proof {
            let ip = Seq::<int>::empty();
            assert(is_ham_path(graph.edges(), 0, ip));
            assert(empty.deep_view() =~= ip.map_values(|x: int| graph.nodes()[x]));
        }
        return Some(empty);
    }
    let mut s: usize = 0;
    while s < n
        invariant
            s <= n,
        decreases n - s,
    {
        let mut vis: Vec<bool> = Vec::new();
        let mut k: usize = 0;
        while k < n
            invariant
                k <= n,
                vis@.len() == k,
                forall|i: int| 0 <= i < k ==> !vis@[i],
            decreases n - k,
        {
            vis.push(false);
            k += 1;
        }
        proof {
            lemma_count_false_all(vis@);
        }
        mark(&mut vis, s);
        let mut path: Vec<usize> = Vec::new();
        path.push(s);
        proof {
            reveal(dfs_state_ok);
            assert(path@ =~= seq![s]);
            assert(dfs_state_ok(graph.edges(), n as int, vis@, path@));
        }
        if hamiltonian_dfs(graph, s, &mut vis, &mut path, start_ms, timeout_ms) {
            proof {
                let ip = path@.map_values(|u: usize| u as int);
                assert(forall|t: int|
                    0 <= t < path@.len() ==> (#[trigger] path@[t] as int) == ip[t]);
            }
            let ids = indices_to_ids(graph, &path);
            proof {
                let ip = path@.map_values(|u: usize| u as int);
                assert(ids.deep_view() == ip.map_values(|x: int| graph.nodes()[x]));
            }
            return Some(ids);
        }
        let now = now_millis();
        if now >= start_ms && now - start_ms > timeout_ms {
            return None;
        }
        s += 1;
    }
    None
}

proof fn lemma_count_false_all(s: Seq<bool>)
    requires
        forall|i: int| 0 <= i < s.len() ==> !s[i],
    ensures
        count_false(s) == s.len(),
    decreases s.len(),
{
    if s.len() > 0 {
        lemma_count_false_all(s.drop_last());
    }
}

/// Some node index carries the first name, some the second, and a directed
/// walk joins them.
pub open spec fn reaches_by_name(
    nodes: Seq<Seq<char>>,
    edges: Seq<(int, int)>,
    a: Seq<char>,
    b: Seq<char>,
) -> bool {
    exists|si: int, gi: int|
        0 <= si < nodes.len() && 0 <= gi < nodes.len() && nodes[si] == a && nodes[gi] == b
            && dir_reach(edges, si, gi)
}

/// One open-list entry of the A* search: the frontier node and the walk
/// that discovered it.
#[verifier::opaque]
pub open spec fn astar_entry_ok(
    edges: Seq<(int, int)>,
    si: int,
    n: int,
    e: (usize, Vec<usize>),
) -> bool {
    let pth = e.1@.map_values(|u: usize| u as int);
    &&& e.1@.len() >= 1
    &&& pth[0] == si
    &&& pth.last() == e.0 as int
    &&& (forall|t: int| 0 <= t < pth.len() ==> 0 <= #[trigger] pth[t] < n)
    &&& (forall|t: int| 0 <= t < pth.len() - 1 ==> edges.contains((#[trigger] pth[t], pth[t + 1])))
}

pub open spec fn open_has(open: Seq<(usize, Vec<usize>)>, x: usize) -> bool {
    exists|k: int| 0 <= k < open.len() && open[k].0 == x
}

fn copy_indices(v: &Vec<usize>) -> (r: Vec<usize>)
    ensures
        r@ == v@,
{
    let mut out: Vec<usize> = Vec::new();
    let mut k: usize = 0;
    let n = v.len();
    while k < n
        invariant
            k <= n,
            n == v@.len(),
            out@ =~= v@.take(k as int),
        decreases n - k,
    {
        out.push(v[k]);
        proof {
            assert(v@.take(k + 1) =~= v@.take(k as int).push(v@[k as int]));
        }
        k += 1;
    }
    proof {
        assert(v@.take(n as int) =~= v@);
    }
    out
}

/// A* search for a minimum-hop walk from `start` to `goal`, with uniform
/// cost one per dependency hop; the open list is kept ordered by ascending
/// f-score.
///
/// `Ok` holds a shortest directed walk from `start` to `goal` — no walk
/// between the two has fewer hops — whose cost is its hop count, and comes
/// iff both endpoints are nodes and such a walk exists; `NodeNotFound`
/// names the absent endpoint, and `NoPathFound` reports that every walk
/// between the two was exhausted.


/// A prefix of a directed walk is a directed walk to the cut point.
proof fn lemma_dir_path_prefix(edges: Seq<(int, int)>, q: Seq<int>, u: int, v: int, k: int)
    requires
        is_dir_path(edges, q, u, v),
        0 <= k < q.len(),
    ensures
        is_dir_path(edges, q.subrange(0, k + 1), u, q[k]),
{
    let pre = q.subrange(0, k + 1);
    assert(pre.len() == k + 1);
    assert(pre[0] == q[0]);
    assert(pre.last() == q[k]);
    assert forall|t: int| 0 <= t < pre.len() - 1 implies edges.contains(
        (#[trigger] pre[t], pre[t + 1]),
    ) by {
        assert(pre[t] == q[t] && pre[t + 1] == q[t + 1]);
        assert(edges.contains((q[t], q[t + 1])));
    }
}

/// A walk that starts marked and ends unmarked crosses the boundary
/// somewhere: some step leads from a marked node to an unmarked one.
proof fn lemma_first_unmarked(marks: Seq<bool>, q: Seq<int>)
    requires
        q.len() >= 1,
        forall|t: int| 0 <= t < q.len() ==> 0 <= #[trigger] q[t] < marks.len(),
        marks[q[0]],
        !marks[q.last()],
    ensures
        exists|k: int| 0 <= k < q.len() - 1 && marks[#[trigger] q[k]] && !marks[q[k + 1]],
    decreases q.len(),
{
    assert(q.len() >= 2);
    if !marks[q[1]] {
        assert(0 <= 0int < q.len() - 1 && marks[q[0int]] && !marks[q[0int + 1]]);
    } else {
        let rest = q.drop_first();
        assert(forall|t: int| 0 <= t < rest.len() ==> #[trigger] rest[t] == q[t + 1]);
        lemma_first_unmarked(marks, rest);
        let k = choose|k: int|
            0 <= k < rest.len() - 1 && marks[#[trigger] rest[k]] && !marks[rest[k + 1]];
        assert(rest[k] == q[k + 1] && rest[k + 1] == q[k + 2]);
        assert(0 <= k + 1 < q.len() - 1 && marks[q[k + 1]] && !marks[q[k + 1 + 1]]);
    }
}

/// The walk recorded by an open-list entry is a shortest directed walk
/// from the start to the entry's node.
#[verifier::opaque]
pub open spec fn entry_minimal(edges: Seq<(int, int)>, si: int, e: (usize, Vec<usize>)) -> bool {
    forall|q: Seq<int>| is_dir_path(edges, q, si, e.0 as int) ==> q.len() >= e.1@.len()
}

/// The frontier argument of the search: when the consumed entry is a
/// shortest and shortest-in-the-open-list walk, the marked set is closed
/// under steps away from every settled node, and `y` is still unmarked,
/// then no walk reaches `y` in fewer steps than through the consumed
/// entry.
#[verifier::rlimit(100)]
proof fn lemma_new_entry_minimal(
    edges: Seq<(int, int)>,
    si: int,
    n: int,
    pushed: Seq<bool>,
    open: Seq<(usize, Vec<usize>)>,
    x_entry: (usize, Vec<usize>),
    y: usize,
)
    requires
        n <= usize::MAX as int,
        pushed.len() == n,
        0 <= si < n,
        pushed[si],
        (y as int) < n,
        (x_entry.0 as int) < n,
        !pushed[y as int],
        x_entry.1@.len() >= 1,
        forall|e: (int, int)| #[trigger] edges.contains(e) ==> 0 <= e.0 < n && 0 <= e.1 < n,
        entry_minimal(edges, si, x_entry),
        forall|k: int| 0 <= k < open.len() ==> (#[trigger] open[k]).1@.len() >= x_entry.1@.len(),
        forall|k: int| 0 <= k < open.len() ==> entry_minimal(edges, si, #[trigger] open[k]),
        forall|x2: int, y2: int|
            0 <= x2 < n && pushed[x2] && !open_has(open, x2 as usize) && x2 != x_entry.0 as int
                && edges.contains((x2, y2)) && 0 <= y2 < n ==> pushed[y2],
    ensures
        forall|q: Seq<int>|
            is_dir_path(edges, q, si, y as int) ==> q.len() >= x_entry.1@.len() + 1,
{
    reveal(entry_minimal);
    let lx = x_entry.1@.len() as int;
    assert forall|q: Seq<int>| is_dir_path(edges, q, si, y as int) implies q.len() >= lx + 1 by {
        if q.len() < lx + 1 {
            assert forall|t: int| 0 <= t < q.len() implies 0 <= #[trigger] q[t] < n by {
                if t > 0 {
                    assert(edges.contains((q[t - 1], q[t])));
                }
            }
            assert(q[0] == si && q.last() == y as int);
            lemma_first_unmarked(pushed, q);
            let k = choose|k: int|
                0 <= k < q.len() - 1 && pushed[#[trigger] q[k]] && !pushed[q[k + 1]];
            let z = q[k];
            let w = q[k + 1];
            lemma_dir_path_prefix(edges, q, si, y as int, k);
            assert(is_dir_path(edges, q.subrange(0, k + 1), si, z));
            if z == x_entry.0 as int {
                assert(q.subrange(0, k + 1).len() >= lx);
                assert(false);
            } else if open_has(open, z as usize) {
                let kk = choose|kk: int| 0 <= kk < open.len() && open[kk].0 == z as usize;
                assert(entry_minimal(edges, si, open[kk]));
                assert(q.subrange(0, k + 1).len() >= open[kk].1@.len());
                assert(false);
            } else {
                assert(edges.contains((z, w)));
                assert(pushed[w]);
                assert(false);
            }
        }
    }
}

#[verifier::rlimit(100)]
proof fn lemma_after_remove(
    edges: Seq<(int, int)>,
    si: int,
    n: int,
    head: Seq<(usize, Vec<usize>)>,
    cur: Seq<(usize, Vec<usize>)>,
    mi: int,
    node: usize,
    gi: usize,
    pushed: Seq<bool>,
)
    requires
        0 <= mi < head.len(),
        n <= usize::MAX as int,
        cur == head.remove(mi),
        node == head[mi].0,
        pushed.len() == n,
        forall|k2: int|
            0 <= k2 < head.len() ==> astar_entry_ok(edges, si, n, #[trigger] head[k2]) && (
            head[k2].0 as int) < n && pushed[head[k2].0 as int],
        forall|k1: int, k2: int| 0 <= k1 < k2 < head.len() ==> head[k1].0 != head[k2].0,
        forall|x: int, y: int|
            0 <= x < n && pushed[x] && !open_has(head, x as usize) && edges.contains((x, y)) && 0
                <= y < n ==> pushed[y],
        pushed[gi as int] ==> open_has(head, gi),
        forall|k2: int| 0 <= k2 < head.len() ==> (#[trigger] head[k2]).1@.len() >= head[mi].1@.len(),
        forall|k2: int| 0 <= k2 < head.len() ==> entry_minimal(edges, si, #[trigger] head[k2]),
    ensures
        forall|k2: int|
            0 <= k2 < cur.len() ==> astar_entry_ok(edges, si, n, #[trigger] cur[k2]) && (
            cur[k2].0 as int) < n && pushed[cur[k2].0 as int],
        forall|k2: int| 0 <= k2 < cur.len() ==> (#[trigger] cur[k2]).1@.len() >= head[mi].1@.len(),
        forall|k2: int| 0 <= k2 < cur.len() ==> entry_minimal(edges, si, #[trigger] cur[k2]),
        forall|k1: int, k2: int| 0 <= k1 < k2 < cur.len() ==> cur[k1].0 != cur[k2].0,
        forall|x: int, y: int|
            0 <= x < n && pushed[x] && !open_has(cur, x as usize) && x != node as int
                && edges.contains((x, y)) && 0 <= y < n ==> pushed[y],
        node != gi && pushed[gi as int] ==> open_has(cur, gi),
{
    head.remove_ensures(mi);
    assert forall|k2: int|
        0 <= k2 < cur.len() implies astar_entry_ok(edges, si, n, #[trigger] cur[k2]) && (
    cur[k2].0 as int) < n && pushed[cur[k2].0 as int] && cur[k2].1@.len() >= head[mi].1@.len()
        && entry_minimal(edges, si, cur[k2]) by {
        let a: int = if k2 < mi {
            k2
        } else {
            k2 + 1
        };
        assert(cur[k2] == head[a]);
    }
    assert forall|k1: int, k2: int|
        0 <= k1 < k2 < cur.len() implies cur[k1].0 != cur[k2].0 by {
        let a1: int = if k1 < mi {
            k1
        } else {
            k1 + 1
        };
        let a2: int = if k2 < mi {
            k2
        } else {
            k2 + 1
        };
        assert(cur[k1] == head[a1] && cur[k2] == head[a2]);
    }
    assert forall|x: int, y: int|
        0 <= x < n && pushed[x] && !open_has(cur, x as usize) && x != node as int
            && edges.contains((x, y)) && 0 <= y < n implies pushed[y] by {
        assert(!open_has(head, x as usize)) by {
            if open_has(head, x as usize) {
                let k2 = choose|k2: int| 0 <= k2 < head.len() && head[k2].0 == x as usize;
                if k2 < mi {
                    assert(cur[k2].0 == x as usize);
                    assert(open_has(cur, x as usize));
                } else if k2 == mi {
                    assert(x == node as int);
                } else {
                    assert(cur[k2 - 1].0 == x as usize);
                    assert(open_has(cur, x as usize));
                }
            }
        }
    }
    if node != gi && pushed[gi as int] {
        let k2 = choose|k2: int| 0 <= k2 < head.len() && head[k2].0 == gi;
        if k2 < mi {
            assert(cur[k2].0 == gi);
            assert(open_has(cur, gi));
        } else {
            assert(k2 > mi);
            assert(cur[k2 - 1].0 == gi);
            assert(open_has(cur, gi));
        }
    }
}


#[verifier::rlimit(100)]
proof fn lemma_expand_step(
    edges: Seq<(int, int)>,
    si: int,
    n: int,
    open_pre: Seq<(usize, Vec<usize>)>,
    open_cur: Seq<(usize, Vec<usize>)>,
    pushed_pre: Seq<bool>,
    pushed_cur: Seq<bool>,
    node: usize,
    gi: usize,
    y: usize,
)
    requires
        n <= usize::MAX as int,
        pushed_pre.len() == n,
        (y as int) < n,
        (node as int) < n,
        (gi as int) < n,
        pushed_pre[y as int] ==> open_cur == open_pre && pushed_cur == pushed_pre,
        !pushed_pre[y as int] ==> {
            &&& pushed_cur == pushed_pre.update(y as int, true)
            &&& open_cur.len() == open_pre.len() + 1
            &&& open_cur[open_cur.len() - 1].0 == y
            &&& (forall|k: int| 0 <= k < open_pre.len() ==> open_cur[k] == open_pre[k])
            &&& astar_entry_ok(edges, si, n, open_cur[open_cur.len() - 1])
            &&& dir_reach(edges, si, y as int)
        },
        forall|k2: int|
            0 <= k2 < open_pre.len() ==> astar_entry_ok(edges, si, n, #[trigger] open_pre[k2]) && (
            open_pre[k2].0 as int) < n && pushed_pre[open_pre[k2].0 as int],
        forall|k1: int, k2: int|
            0 <= k1 < k2 < open_pre.len() ==> open_pre[k1].0 != open_pre[k2].0,
        forall|i: int| 0 <= i < n && #[trigger] pushed_pre[i] ==> dir_reach(edges, si, i),
        forall|x: int, y2: int|
            0 <= x < n && pushed_pre[x] && !open_has(open_pre, x as usize) && x != node as int
                && edges.contains((x, y2)) && 0 <= y2 < n ==> pushed_pre[y2],
        pushed_pre[gi as int] ==> open_has(open_pre, gi),
    ensures
        pushed_cur.len() == n,
        pushed_cur[y as int],
        forall|k2: int|
            0 <= k2 < open_cur.len() ==> astar_entry_ok(edges, si, n, #[trigger] open_cur[k2]) && (
            open_cur[k2].0 as int) < n && pushed_cur[open_cur[k2].0 as int],
        forall|k1: int, k2: int|
            0 <= k1 < k2 < open_cur.len() ==> open_cur[k1].0 != open_cur[k2].0,
        forall|i: int| 0 <= i < n && #[trigger] pushed_cur[i] ==> dir_reach(edges, si, i),
        forall|x: int, y2: int|
            0 <= x < n && pushed_cur[x] && !open_has(open_cur, x as usize) && x != node as int
                && edges.contains((x, y2)) && 0 <= y2 < n ==> pushed_cur[y2],
        pushed_cur[gi as int] ==> open_has(open_cur, gi),
        forall|i: int| 0 <= i < n && pushed_pre[i] ==> pushed_cur[i],
{
    if pushed_pre[y as int] {
    } else {
        let last: int = open_cur.len() - 1;
        assert forall|k1: int, k2: int|
            0 <= k1 < k2 < open_cur.len() implies open_cur[k1].0 != open_cur[k2].0 by {
            if k2 == last {
                assert(open_cur[k1] == open_pre[k1]);
                assert(pushed_pre[open_pre[k1].0 as int]);
            } else {
                assert(open_cur[k1] == open_pre[k1] && open_cur[k2] == open_pre[k2]);
            }
        }
        assert forall|x: int, y2: int|
            0 <= x < n && pushed_cur[x] && !open_has(open_cur, x as usize) && x != node as int
                && edges.contains((x, y2)) && 0 <= y2 < n implies pushed_cur[y2] by {
            if pushed_pre[x] {
                assert(!open_has(open_pre, x as usize)) by {
                    if open_has(open_pre, x as usize) {
                        let k2 = choose|k2: int|
                            0 <= k2 < open_pre.len() && open_pre[k2].0 == x as usize;
                        assert(open_cur[k2].0 == x as usize);
                        assert(open_has(open_cur, x as usize));
                    }
                }
            } else {
                assert(x == y as int);
                assert(open_cur[last].0 == y);
                assert(open_has(open_cur, y));
            }
        }
        assert(pushed_cur[gi as int] ==> open_has(open_cur, gi)) by {
            if pushed_cur[gi as int] {
                if pushed_pre[gi as int] {
                    let k2 = choose|k2: int|
                        0 <= k2 < open_pre.len() && open_pre[k2].0 == gi;
                    assert(open_cur[k2].0 == gi);
                    assert(open_has(open_cur, gi));
                } else {
                    assert(gi == y);
                    assert(open_cur[last].0 == y);
                    assert(open_has(open_cur, gi));
                }
            }
        }
    }
}

#[verifier::rlimit(100)]
proof fn lemma_expand_done(
    edges: Seq<(int, int)>,
    n: int,
    node: usize,
    outs_view: Seq<usize>,
    pushed: Seq<bool>,
    open: Seq<(usize, Vec<usize>)>,
)
    requires
        pushed.len() == n,
        outs_view.map_values(|t: usize| t as int) == out_neighbors_of(edges, node as int),
        forall|m: int| 0 <= m < outs_view.len() ==> pushed[#[trigger] outs_view[m] as int],
        forall|m: int| 0 <= m < outs_view.len() ==> (#[trigger] outs_view[m] as int) < n,
        forall|x: int, y: int|
            0 <= x < n && pushed[x] && !open_has(open, x as usize) && x != node as int
                && edges.contains((x, y)) && 0 <= y < n ==> pushed[y],
    ensures
        forall|x: int, y: int|
            0 <= x < n && pushed[x] && !open_has(open, x as usize) && edges.contains((x, y)) && 0
                <= y < n ==> pushed[y],
{
    let m_out = outs_view.map_values(|t: usize| t as int);
    lemma_out_neighbors_of(edges, node as int);
    assert forall|x: int, y: int|
        0 <= x < n && pushed[x] && !open_has(open, x as usize) && edges.contains((x, y)) && 0 <= y
        < n implies pushed[y] by {
        if x == node as int {
            assert(out_neighbors_of(edges, x).contains(y));
            let m = choose|m: int| 0 <= m < m_out.len() && m_out[m] == y;
            assert(outs_view[m] as int == y);
            assert(pushed[outs_view[m] as int]);
        }
    }
}

#[verifier::rlimit(100)]
#[verifier::spinoff_prover]
pub fn astar_resolve(graph: &DependencyGraph, start: String, goal: String) -> (r: Result<
    Path,
    ResolverError,
>)
    requires
        graph.inv(),
    ensures
        (r matches Err(ResolverError::NodeNotFound(m)) ==> m@ == (
        if !graph.nodes().contains(start@) {
            start@
        } else {
            goal@
        })),
        ((r matches Err(ResolverError::NodeNotFound(_))) <==> (!graph.nodes().contains(start@)
            || !graph.nodes().contains(goal@))),
        (r matches Err(ResolverError::NoPathFound { start: s2, goal: g2 }) ==> s2@ == start@
            && g2@ == goal@),
        ((r matches Err(ResolverError::NoPathFound { start: _, goal: _ })) <==> (
        graph.nodes().contains(start@) && graph.nodes().contains(goal@) && !reaches_by_name(
            graph.nodes(),
            graph.edges(),
            start@,
            goal@,
        ))),
        (r is Ok <==> graph.nodes().contains(start@) && graph.nodes().contains(goal@)
            && reaches_by_name(graph.nodes(), graph.edges(), start@, goal@)),
        (r matches Ok(p) ==> exists|ip: Seq<int>, si: int, gi: int|
            {
                &&& 0 <= si < graph.nodes().len()
                &&& 0 <= gi < graph.nodes().len()
                &&& graph.nodes()[si] == start@
                &&& graph.nodes()[gi] == goal@
                &&& is_dir_path(graph.edges(), ip, si, gi)
                &&& p.nodes.deep_view() == ip.map_values(|x: int| graph.nodes()[x])
                &&& p.cost == ip.len() - 1
                &&& forall|q: Seq<int>|
                    is_dir_path(graph.edges(), q, si, gi) ==> q.len() >= ip.len()
            }),
{
    let ghost edges = graph.edges();
    let ghost nodes = graph.nodes();
    proof {
        graph.lemma_inv_facts();
    }
    let n = graph.node_count();
    let si = match graph.find_node(start.as_str()) {
        Some(i) => i,
        None => {
            return Err(ResolverError::NodeNotFound(start));
        },
    };
    let gi = match graph.find_node(goal.as_str()) {
        Some(i) => i,
        None => {
            return Err(ResolverError::NodeNotFound(goal));
        },
    };
    proof {
        assert(nodes.contains(start@));
        assert(nodes.contains(goal@));
    }
    let mut pushed: Vec<bool> = Vec::new();
    let mut k: usize = 0;
    while k < n
        invariant
            k <= n,
            pushed@.len() == k,
            forall|i: int| 0 <= i < k ==> !pushed@[i],
        decreases n - k,
    {
        pushed.push(false);
        k += 1;
    }
    proof {
        lemma_count_false_all(pushed@);
        let w = seq![si as int];
        assert(is_dir_path(edges, w, si as int, si as int));
    }
    mark(&mut pushed, si);
    let mut first: Vec<usize> = Vec::new();
    first.push(si);
    let mut open: Vec<(usize, Vec<usize>)> = Vec::new();
    let ghost first_entry = (si, first);
    proof {
        reveal(astar_entry_ok);
        assert(first@ =~= seq![si]);
        assert(first@.map_values(|u: usize| u as int) =~= seq![si as int]);
        assert(astar_entry_ok(edges, si as int, n as int, first_entry));
    }
    open.push((si, first));
    proof {
        assert(open@[0].0 == si);
        assert(open_has(open@, si));
        assert(entry_minimal(edges, si as int, open@[0])) by {
            reveal(entry_minimal);
        }
    }
    while open.len() > 0
        invariant
            graph.inv(),
            edges == graph.edges(),
            nodes == graph.nodes(),
            n == nodes.len(),
            (si as int) < n,
            (gi as int) < n,
            nodes[si as int] == start@,
            nodes[gi as int] == goal@,
            pushed@.len() == n,
            pushed@[si as int],
            forall|k2: int|
                0 <= k2 < open@.len() ==> astar_entry_ok(edges, si as int, n as int, #[trigger] open@[k2])
                    && (open@[k2].0 as int) < n && pushed@[open@[k2].0 as int],
            forall|k1: int, k2: int| 0 <= k1 < k2 < open@.len() ==> open@[k1].0 != open@[k2].0,
            forall|i: int| 0 <= i < n && #[trigger] pushed@[i] ==> dir_reach(edges, si as int, i),
            forall|x: int, y: int|
                0 <= x < n && pushed@[x] && !open_has(open@, x as usize) && edges.contains((x, y))
                    && 0 <= y < n ==> pushed@[y],
            pushed@[gi as int] ==> open_has(open@, gi),
            forall|k2: int|
                0 <= k2 < open@.len() ==> entry_minimal(edges, si as int, #[trigger] open@[k2]),
        decreases count_false(pushed@), open@.len(),
    {
        let ghost open_head = open@;
        let ghost pushed_head = pushed@;
        // pop the open entry with the least f-score
        let mut mi: usize = 0;
        let mut j: usize = 1;
        let olen = open.len();
        while j < olen
            invariant
                mi < olen,
                j <= olen,
                olen == open@.len(),
                forall|m: int| 0 <= m < j ==> open@[mi as int].1@.len() <= (#[trigger] open@[m]).1@.len(),
            decreases olen - j,
        {
            if open[j].1.len() < open[mi].1.len() {
                mi = j;
            }
            j += 1;
        }
        let entry = open.remove(mi);
        let node = entry.0;
        proof {
            open_head.remove_ensures(mi as int);
            assert(entry == open_head[mi as int]);
            assert(astar_entry_ok(edges, si as int, n as int, entry));
            assert(entry.1@.len() >= 1) by {
                reveal(astar_entry_ok);
            }
            assert(entry_minimal(edges, si as int, entry));
            lemma_after_remove(
                edges,
                si as int,
                n as int,
                open_head,
                open@,
                mi as int,
                node,
                gi,
                pushed@,
            );
        }
        if node == gi {
            proof {
                reveal(astar_entry_ok);
                let pth = entry.1@.map_values(|u: usize| u as int);
                assert forall|t: int|
                    0 <= t < entry.1@.len() implies (#[trigger] entry.1@[t] as int) < n by {
                    assert(pth[t] == entry.1@[t] as int);
                }
                assert forall|q: Seq<int>|
                    is_dir_path(edges, q, si as int, gi as int) implies q.len() >= pth.len() by {
                    reveal(entry_minimal);
                }
            }
            let ids = indices_to_ids(graph, &entry.1);
            let cost = (ids.len() - 1) as u64;
            proof {
                reveal(astar_entry_ok);
                let ip = entry.1@.map_values(|u: usize| u as int);
                assert(is_dir_path(edges, ip, si as int, gi as int));
                assert(nodes[si as int] == start@ && nodes[gi as int] == goal@);
                assert(ids.deep_view() == ip.map_values(|x: int| nodes[x]));
                assert(nodes.contains(start@) && nodes.contains(goal@));
                assert(dir_reach(edges, si as int, gi as int));
                assert(reaches_by_name(nodes, edges, start@, goal@));
            }
            return Ok(Path { nodes: ids, cost });
        }
        let outs = graph.out_neighbors_idx(node);
        let ghost m_out = outs@.map_values(|t: usize| t as int);
        proof {
            lemma_out_neighbors_of(edges, node as int);
        }
        let mut j2: usize = 0;
        let no = outs.len();
        while j2 < no
            invariant
                graph.inv(),
                edges == graph.edges(),
                nodes == graph.nodes(),
                n == nodes.len(),
                (si as int) < n,
                (gi as int) < n,
                j2 <= no,
                no == outs@.len(),
                pushed@.len() == n,
                pushed@[si as int],
                pushed@[node as int],
                (node as int) < n,
                astar_entry_ok(edges, si as int, n as int, entry),
                entry.0 == node,
                entry.1@.len() >= 1,
                entry_minimal(edges, si as int, entry),
                forall|k2: int|
                    0 <= k2 < open@.len() ==> (#[trigger] open@[k2]).1@.len() >= entry.1@.len(),
                forall|k2: int|
                    0 <= k2 < open@.len() ==> entry_minimal(edges, si as int, #[trigger] open@[k2]),
                m_out == outs@.map_values(|t: usize| t as int),
                m_out == out_neighbors_of(edges, node as int),
                forall|m: int| 0 <= m < no ==> (#[trigger] outs@[m] as int) < n,
                forall|m: int| 0 <= m < j2 ==> pushed@[#[trigger] outs@[m] as int],
                forall|k2: int|
                    0 <= k2 < open@.len() ==> astar_entry_ok(edges, si as int, n as int, #[trigger] open@[k2])
                        && (open@[k2].0 as int) < n && pushed@[open@[k2].0 as int],
                forall|k1: int, k2: int| 0 <= k1 < k2 < open@.len() ==> open@[k1].0 != open@[k2].0,
                forall|i: int|
                    0 <= i < n && #[trigger] pushed@[i] ==> dir_reach(edges, si as int, i),
                forall|x: int, y: int|
                    0 <= x < n && pushed@[x] && !open_has(open@, x as usize) && x != node as int
                        && edges.contains((x, y)) && 0 <= y < n ==> pushed@[y],
                pushed@[gi as int] ==> open_has(open@, gi),
                forall|i: int| 0 <= i < n && pushed_head[i] ==> pushed@[i],
                count_false(pushed@) + open@.len() <= count_false(pushed_head) + open_head.len()
                    - 1,
                count_false(pushed@) <= count_false(pushed_head),
            decreases no - j2,
        {
            let y = outs[j2];
            proof {
                assert(m_out[j2 as int] == y as int);
                assert(m_out.contains(y as int));
                lemma_out_neighbors_of(edges, node as int);
                assert(edges.contains((node as int, y as int)));
            }
            let ghost open_pre = open@;
            let ghost pushed_pre = pushed@;
            if !pushed[y] {
                proof {
                    lemma_reach_step_dir(edges, si as int, node as int, y as int);
                    graph.lemma_inv_facts();
                    lemma_new_entry_minimal(
                        edges,
                        si as int,
                        n as int,
                        pushed_pre,
                        open_pre,
                        entry,
                        y,
                    );
                }
                mark(&mut pushed, y);
                let mut p2 = copy_indices(&entry.1);
                p2.push(y);
                let ghost new_entry = (y, p2);
                proof {
                    assert(astar_entry_ok(edges, si as int, n as int, new_entry)) by {
                        reveal(astar_entry_ok);
                        let pth0 = entry.1@.map_values(|u: usize| u as int);
                        let pth = p2@.map_values(|u: usize| u as int);
                        assert(pth =~= pth0.push(y as int));
                        assert(forall|t: int| 0 <= t < pth0.len() ==> pth[t] == pth0[t]);
                    }
                }
                proof {
                    assert(entry_minimal(edges, si as int, new_entry)) by {
                        reveal(entry_minimal);
                        assert(p2@.len() == entry.1@.len() + 1);
                    }
                }
                open.push((y, p2));
            }
            proof {
                if !pushed_pre[y as int] {
                    assert(open@.len() == open_pre.len() + 1);
                    assert(open@[open@.len() - 1].0 == y);
                    assert(forall|k: int| 0 <= k < open_pre.len() ==> open@[k] == open_pre[k]);
                }
                lemma_expand_step(
                    edges,
                    si as int,
                    n as int,
                    open_pre,
                    open@,
                    pushed_pre,
                    pushed@,
                    node,
                    gi,
                    y,
                );
                assert forall|k2: int|
                    0 <= k2 < open@.len() implies (#[trigger] open@[k2]).1@.len()
                    >= entry.1@.len() && entry_minimal(edges, si as int, open@[k2]) by {
                    if k2 < open_pre.len() {
                        assert(open@[k2] == open_pre[k2]);
                    }
                }
            }
            j2 += 1;
        }
        proof {
            lemma_expand_done(edges, n as int, node, outs@, pushed@, open@);
            lemma_count_false_nonneg(pushed@);
        }
    }
    proof {
        assert(!pushed@[gi as int]) by {
            if pushed@[gi as int] {
                let k2 = choose|k2: int| 0 <= k2 < open@.len() && open@[k2].0 == gi;
            }
        }
        assert(!dir_reach(edges, si as int, gi as int)) by {
            if dir_reach(edges, si as int, gi as int) {
                let p = choose|p: Seq<int>| is_dir_path(edges, p, si as int, gi as int);
                assert forall|x: int, y: int|
                    0 <= x < pushed@.len() && pushed@[x] && edges.contains((x, y)) implies 0 <= y
                    < pushed@.len() && pushed@[y] by {
                    assert(!open_has(open@, x as usize)) by {
                        if open_has(open@, x as usize) {
                            let k2 = choose|k2: int|
                                0 <= k2 < open@.len() && open@[k2].0 == x as usize;
                        }
                    }
                }
                lemma_closed_dir(edges, pushed@, p, si as int, gi as int);
            }
        }
        assert(!reaches_by_name(nodes, edges, start@, goal@)) by {
            if reaches_by_name(nodes, edges, start@, goal@) {
                let (si2, gi2): (int, int) = choose|si2: int, gi2: int|
                    0 <= si2 < nodes.len() && 0 <= gi2 < nodes.len() && nodes[si2] == start@
                        && nodes[gi2] == goal@ && dir_reach(edges, si2, gi2);
                assert(si2 == si as int) by {
                    if si2 != si as int {
                        assert(nodes[si2] != nodes[si as int]);
                    }
                }
                assert(gi2 == gi as int) by {
                    if gi2 != gi as int {
                        assert(nodes[gi2] != nodes[gi as int]);
                    }
                }
            }
        }
    }
    Err(ResolverError::NoPathFound { start, goal })
}


proof fn lemma_unbalanced_count_zero(edges: Seq<(int, int)>, k: nat)
    ensures
        unbalanced_count(edges, k) >= 0,
        unbalanced_count(edges, k) == 0 <==> (forall|i: int|
            0 <= i < k ==> balanced_at(edges, i)),
    decreases k,
{
    if k > 0 {
        lemma_unbalanced_count_zero(edges, (k - 1) as nat);
    }
}

/// Whether every node is reachable from node zero over the underlying
/// undirected graph.
fn euler_connected_check(graph: &DependencyGraph) -> (r: bool)
    requires
        graph.inv(),
    ensures
        r <==> euler_connected(graph.edges(), graph.nodes().len() as int),
{
    let n = graph.node_count();
    if n == 0 {
        return true;
    }
    let vis = undirected_reach(graph);
    let mut i: usize = 0;
    while i < n
        invariant
            graph.inv(),
            n == graph.nodes().len(),
            vis@.len() == n,
            i <= n,
            forall|k: int| 0 <= k < vis@.len() ==> (vis@[k] <==> connected_undir(
                graph.edges(),
                0,
                k,
            )),
            forall|k: int| 0 <= k < i ==> connected_undir(graph.edges(), 0, k),
        decreases n - i,
    {
        if !vis[i] {
            proof {
                assert(!connected_undir(graph.edges(), 0, i as int));
                assert(!euler_connected(graph.edges(), graph.nodes().len() as int));
            }
            return false;
        }
        i += 1;
    }
    true
}

/// Whether a sequence of identifiers holds one with the given view.
fn contains_id(v: &Vec<String>, id: &str) -> (r: bool)
    ensures
        r <==> exists|k: int| 0 <= k < v@.len() && (#[trigger] v@[k])@ == id@,
{
    let n = v.len();
    let mut i: usize = 0;
    while i < n
        invariant
            n == v@.len(),
            i <= n,
            forall|k: int| 0 <= k < i ==> (#[trigger] v@[k])@ != id@,
        decreases n - i,
    {
        if str_eq(v[i].as_str(), id) {
            return true;
        }
        i += 1;
    }
    false
}


proof fn lemma_astar_ok_shape(
    nodes: Seq<Seq<char>>,
    edges: Seq<(int, int)>,
    sv: Seq<char>,
    gv: Seq<char>,
    p: Path,
)
    requires
        exists|ip: Seq<int>, si: int, gi: int|
            {
                &&& 0 <= si < nodes.len()
                &&& 0 <= gi < nodes.len()
                &&& nodes[si] == sv
                &&& nodes[gi] == gv
                &&& is_dir_path(edges, ip, si, gi)
                &&& p.nodes.deep_view() == ip.map_values(|x: int| nodes[x])
                &&& p.cost == ip.len() - 1
            },
    ensures
        p.nodes@.len() >= 1,
        p.cost == p.nodes@.len() - 1,
        exists|ip: Seq<int>, si: int, gi: int|
            {
                &&& 0 <= si < nodes.len()
                &&& 0 <= gi < nodes.len()
                &&& nodes[si] == sv
                &&& nodes[gi] == gv
                &&& is_dir_path(edges, ip, si, gi)
                &&& p.nodes.deep_view() == ip.map_values(|x: int| nodes[x])
            },
{
    let (ip, si, gi): (Seq<int>, int, int) = choose|ip: Seq<int>, si: int, gi: int|
        {
            &&& 0 <= si < nodes.len()
            &&& 0 <= gi < nodes.len()
            &&& nodes[si] == sv
            &&& nodes[gi] == gv
            &&& is_dir_path(edges, ip, si, gi)
            &&& p.nodes.deep_view() == ip.map_values(|x: int| nodes[x])
            &&& p.cost == ip.len() - 1
        };
    assert(p.nodes.deep_view().len() == p.nodes@.len());
    assert(ip.map_values(|x: int| nodes[x]).len() == ip.len());
}

/// Ordered fallback resolution: an Eulerian feasibility check first, then
/// A* for a concrete optimal path, then a timeout-bounded Hamiltonian
/// search whose result is accepted only when it carries both endpoints.
///
/// A success is either a directed walk from `start` to `goal` or a
/// Hamiltonian path through the whole graph containing both, and its cost
/// is always its node count less one. A missing endpoint is surfaced at
/// once as `NodeNotFound`; when every strategy is exhausted the failure
/// names the hybrid strategy.
#[verifier::rlimit(100)]
pub fn resolve_hybrid(graph: &DependencyGraph, start: String, goal: String) -> (r: Result<
    Path,
    ResolverError,
>)
    requires
        graph.inv(),
    ensures
        r matches Ok(p) ==> p.nodes@.len() >= 1 && p.cost == p.nodes@.len() - 1,
        r matches Ok(p) ==> (exists|ip: Seq<int>, si: int, gi: int|
            {
                &&& 0 <= si < graph.nodes().len()
                &&& 0 <= gi < graph.nodes().len()
                &&& graph.nodes()[si] == start@
                &&& graph.nodes()[gi] == goal@
                &&& is_dir_path(graph.edges(), ip, si, gi)
                &&& p.nodes.deep_view() == ip.map_values(|x: int| graph.nodes()[x])
            }) || (exists|ip: Seq<int>|
            {
                &&& is_ham_path(graph.edges(), graph.nodes().len() as int, ip)
                &&& p.nodes.deep_view() == ip.map_values(|x: int| graph.nodes()[x])
                &&& exists|k: int| 0 <= k < p.nodes@.len() && (#[trigger] p.nodes@[k])@ == start@
                &&& exists|k: int| 0 <= k < p.nodes@.len() && (#[trigger] p.nodes@[k])@ == goal@
            }),
        ((r matches Err(ResolverError::NodeNotFound(_))) <==> (!graph.nodes().contains(start@)
            || !graph.nodes().contains(goal@))),
        r matches Err(ResolverError::NodeNotFound(m)) ==> m@ == (
        if !graph.nodes().contains(start@) {
            start@
        } else {
            goal@
        }),
        r matches Err(ResolverError::NoPathFound { start: _, goal: _ }) ==> fully_eulerian(
            graph.edges(),
            graph.nodes().len() as int,
        ) && !reaches_by_name(graph.nodes(), graph.edges(), start@, goal@),
        r matches Err(ResolverError::ResolutionFailed { strategy, reason }) ==> strategy
            == ResolutionStrategy::Hybrid && reason@ == "All strategies exhausted"@
            && graph.nodes().contains(start@) && graph.nodes().contains(goal@)
            && !reaches_by_name(graph.nodes(), graph.edges(), start@, goal@),
{
    let start_copy = start.as_str().to_owned();
    let goal_copy = goal.as_str().to_owned();
    if is_eulerian(graph) {
        let r0 = astar_resolve(graph, start, goal);
        proof {
            if r0 is Ok {
                lemma_astar_ok_shape(
                    graph.nodes(),
                    graph.edges(),
                    start_copy@,
                    goal_copy@,
                    r0.unwrap(),
                );
            }
        }
        return r0;
    }
    match astar_resolve(graph, start, goal) {
        Ok(p) => {
            proof {
                lemma_astar_ok_shape(graph.nodes(), graph.edges(), start_copy@, goal_copy@, p);
            }
            Ok(p)
        },
        Err(ResolverError::NodeNotFound(m)) => Err(ResolverError::NodeNotFound(m)),
        Err(ResolverError::NoPathFound { start: s0, goal: g0 }) => {
            if let Some(h) = find_hamiltonian_path(graph, 500) {
                if contains_id(&h, start_copy.as_str()) && contains_id(&h, goal_copy.as_str()) {
                    proof {
                        let k1 = choose|k: int|
                            0 <= k < h@.len() && (#[trigger] h@[k])@ == start_copy@;
                        let k2 = choose|k: int|
                            0 <= k < h@.len() && (#[trigger] h@[k])@ == goal_copy@;
                        assert((h@[k1])@ == start@);
                        assert((h@[k2])@ == goal@);
                        assert(h@.len() >= 1);
                        let ip = choose|ip: Seq<int>|
                            is_ham_path(graph.edges(), graph.nodes().len() as int, ip)
                                && h.deep_view() == ip.map_values(|x: int| graph.nodes()[x]);
                        assert(is_ham_path(graph.edges(), graph.nodes().len() as int, ip));
                        assert(h.deep_view() == ip.map_values(|x: int| graph.nodes()[x]));
                        assert(h.deep_view().len() == h@.len());
                    }
                    let cost = (h.len() - 1) as u64;
                    return Ok(Path { nodes: h, cost });
                }
            }
            Err(
                ResolverError::ResolutionFailed {
                    strategy: ResolutionStrategy::Hybrid,
                    reason: "All strategies exhausted".to_owned(),
                },
            )
        },
        Err(ResolverError::ResolutionFailed { strategy: st, reason: re }) => {
            proof {
                assert(false);
            }
            Err(ResolverError::ResolutionFailed { strategy: st, reason: re })
        },
    }
}

/// Outcome of one resolution request: the path found, the fault severity
/// the outcome carries, and a message when something is off.
#[derive(Debug, Clone)]
pub struct ResolutionResult {
    pub path: Vec<String>,
    pub fault_state: FaultState,
    pub error_message: Option<String>,
}

/// The resolution engine's strategy dispatcher.
pub struct DagResolver {}

impl DagResolver {
    pub fn new() -> (r: Self) {
        DagResolver {  }
    }

    /// Classify the graph's Eulerian feasibility as a ternary outcome: a
    /// fully Eulerian graph is `Clean`; a semi-Eulerian one, with exactly
    /// two nodes out of balance by one edge each, is a `MediumWarning`; any
    /// other graph is reported disconnected or irregular as `SystemPanic`.
    pub fn eulerian_resolve(&self, package_id: &str, graph: &DependencyGraph) -> (r:
        ResolutionResult)
        requires
            graph.inv(),
        ensures
            (r.fault_state == FaultState::Clean <==> fully_eulerian(
                graph.edges(),
                graph.nodes().len() as int,
            )),
            (r.fault_state == FaultState::MediumWarning <==> !fully_eulerian(
                graph.edges(),
                graph.nodes().len() as int,
            ) && semi_eulerian(graph.edges(), graph.nodes().len() as int)),
            r.fault_state == FaultState::Clean || r.fault_state == FaultState::MediumWarning
                || r.fault_state == FaultState::SystemPanic,
            r.fault_state == FaultState::Clean ==> r.path.deep_view() =~= seq![package_id@]
                && r.error_message is None,
            r.fault_state == FaultState::MediumWarning ==> r.path.deep_view() =~= seq![
                package_id@,
            ] && r.error_message is Some && r.error_message.unwrap()@
                == "Semi-Eulerian path detected"@,
            r.fault_state == FaultState::SystemPanic ==> r.path@.len() == 0 && r.error_message
                is Some && r.error_message.unwrap()@ == "Disconnected dependency graph"@,
    {
        let ghost edges = graph.edges();
        let connected = euler_connected_check(graph);
        let n = graph.node_count();
        let mut unb: u64 = 0;
        let mut all_off1 = true;
        let mut i: usize = 0;
        while i < n
            invariant
                graph.inv(),
                edges == graph.edges(),
                n == graph.nodes().len(),
                i <= n,
                unb == unbalanced_count(edges, i as nat),
                unb <= i,
                all_off1 <==> (forall|k: int|
                    0 <= k < i && !balanced_at(edges, k) ==> off_by_one(edges, k)),
            decreases n - i,
        {
            let outs = graph.out_neighbors_idx(i);
            let ins = graph.in_neighbors_idx(i);
            let o = outs.len();
            let t = ins.len();
            proof {
                assert(outs@.map_values(|x: usize| x as int).len() == outs@.len());
                assert(ins@.map_values(|x: usize| x as int).len() == ins@.len());
                assert(o == out_neighbors_of(edges, i as int).len());
                assert(t == in_neighbors_of(edges, i as int).len());
            }
            if o != t {
                unb += 1;
                let d = if o > t {
                    o - t
                } else {
                    t - o
                };
                if d != 1 {
                    all_off1 = false;
                    proof {
                        assert(!off_by_one(edges, i as int));
                    }
                }
            }
            i += 1;
        }
        proof {
            lemma_unbalanced_count_zero(edges, n as nat);
        }
        if connected && unb == 0 {
            let mut path: Vec<String> = Vec::new();
            path.push(package_id.to_owned());
            proof {
                assert(path.deep_view() =~= seq![package_id@]);
            }
            ResolutionResult { path, fault_state: FaultState::Clean, error_message: None }
        } else if connected && unb == 2 && all_off1 {
            let mut path: Vec<String> = Vec::new();
            path.push(package_id.to_owned());
            proof {
                assert(path.deep_view() =~= seq![package_id@]);
            }
            ResolutionResult {
                path,
                fault_state: FaultState::MediumWarning,
                error_message: Some("Semi-Eulerian path detected".to_owned()),
            }
        } else {
            proof {
                if !connected {
                } else if unb == 2 {
                    assert(!semi_eulerian(edges, n as int));
                } else {
                    assert(unbalanced_count(edges, n as nat) != 2);
                    assert(!semi_eulerian(edges, n as int));
                }
            }
            ResolutionResult {
                path: Vec::new(),
                fault_state: FaultState::SystemPanic,
                error_message: Some("Disconnected dependency graph".to_owned()),
            }
        }
    }

    /// Search for a Hamiltonian path through the dependency graph, bounded
    /// by a half-second timeout: success is `Clean` and carries the path;
    /// exhaustion or timeout is a `HighPanic` with no path.
    pub fn hamiltonian_resolve(&self, package_id: &str, graph: &DependencyGraph) -> (r:
        ResolutionResult)
        requires
            graph.inv(),
        ensures
            r.fault_state == FaultState::Clean || r.fault_state == FaultState::HighPanic,
            r.fault_state == FaultState::Clean ==> r.error_message is None && exists|ip: Seq<int>|
                is_ham_path(graph.edges(), graph.nodes().len() as int, ip) && r.path.deep_view()
                    == ip.map_values(|x: int| graph.nodes()[x]),
            r.fault_state == FaultState::HighPanic ==> r.path@.len() == 0 && r.error_message
                is Some && r.error_message.unwrap()@ == "No Hamiltonian path found"@,
    {
        match find_hamiltonian_path(graph, 500) {
            Some(p) => ResolutionResult {
                path: p,
                fault_state: FaultState::Clean,
                error_message: None,
            },
            None => ResolutionResult {
                path: Vec::new(),
                fault_state: FaultState::HighPanic,
                error_message: Some("No Hamiltonian path found".to_owned()),
            },
        }
    }

    /// Optimal-path resolution between two package identifiers: A* with
    /// uniform hop cost, reported with the severity the outcome carries.
    pub fn astar_resolve(&self, start: &str, goal: &str, graph: &DependencyGraph) -> (r:
        ResolutionResult)
        requires
            graph.inv(),
        ensures
            r.fault_state == FaultState::Clean || r.fault_state == FaultState::MediumPanic,
            r.fault_state == FaultState::Clean <==> graph.nodes().contains(start@)
                && graph.nodes().contains(goal@) && reaches_by_name(
                graph.nodes(),
                graph.edges(),
                start@,
                goal@,
            ),
            r.fault_state == FaultState::Clean ==> r.error_message is None && exists|
                ip: Seq<int>,
                si: int,
                gi: int,
            |
                {
                    &&& 0 <= si < graph.nodes().len()
                    &&& 0 <= gi < graph.nodes().len()
                    &&& graph.nodes()[si] == start@
                    &&& graph.nodes()[gi] == goal@
                    &&& is_dir_path(graph.edges(), ip, si, gi)
                    &&& r.path.deep_view() == ip.map_values(|x: int| graph.nodes()[x])
                },
            r.fault_state == FaultState::MediumPanic ==> r.path@.len() == 0 && r.error_message
                is Some && r.error_message.unwrap()@ == "No safe update path found"@,
    {
        match astar_resolve(graph, start.to_owned(), goal.to_owned()) {
            Ok(p) => ResolutionResult {
                path: p.nodes,
                fault_state: FaultState::Clean,
                error_message: None,
            },
            Err(_) => ResolutionResult {
                path: Vec::new(),
                fault_state: FaultState::MediumPanic,
                error_message: Some("No safe update path found".to_owned()),
            },
        }
    }
}

} // verus!
