//! Directed dependency graph of package identifiers.
//!
//! Topology is held in petgraph's adjacency-list graph, taken on trust
//! through a small set of wrappers; the graph's contents are named by two
//! uninterpreted views, the node-weight sequence and the edge list. A
//! parallel vector of identifiers, kept equal to the node weights, gives
//! verified identifier lookup. Nodes are deduplicated by identifier and
//! edges by endpoint pair, so the structure is a simple directed graph.

use crate::keys::str_eq;
use crate::resolve::ResolverError;
use vstd::prelude::*;

verus! {

/// Declares petgraph's adjacency-list graph type.
#[verifier::external_type_specification]
#[verifier::external_body]
#[verifier::reject_recursive_types(N)]
#[verifier::reject_recursive_types(E)]
#[verifier::reject_recursive_types(Ty)]
#[verifier::reject_recursive_types(Ix)]
pub struct ExGraph<N, E, Ty, Ix>(petgraph::graph::Graph<N, E, Ty, Ix>);

/// Declares petgraph's directed-graph marker type.
#[verifier::external_type_specification]
#[verifier::external_body]
pub struct ExDirected(petgraph::Directed);

/// The node weights a graph holds, in index order.
pub uninterp spec fn graph_nodes(
    g: petgraph::graph::Graph<String, (), petgraph::Directed, u32>,
) -> Seq<Seq<char>>;

/// The directed edges a graph holds, as index pairs in insertion order.
pub uninterp spec fn graph_edges(
    g: petgraph::graph::Graph<String, (), petgraph::Directed, u32>,
) -> Seq<(int, int)>;

/// Targets of the edges leaving `a`, most recently inserted first.
pub open spec fn out_neighbors_of(edges: Seq<(int, int)>, a: int) -> Seq<int>
    decreases edges.len(),
{
    if edges.len() == 0 {
        Seq::empty()
    } else {
        let rest = out_neighbors_of(edges.drop_last(), a);
        if edges.last().0 == a {
            seq![edges.last().1] + rest
        } else {
            rest
        }
    }
}

/// Sources of the edges entering `a`, most recently inserted first.
pub open spec fn in_neighbors_of(edges: Seq<(int, int)>, a: int) -> Seq<int>
    decreases edges.len(),
{
    if edges.len() == 0 {
        Seq::empty()
    } else {
        let rest = in_neighbors_of(edges.drop_last(), a);
        if edges.last().1 == a {
            seq![edges.last().0] + rest
        } else {
            rest
        }
    }
}

/// Total degree of `a`: its outgoing plus its incoming edges.
pub open spec fn degree_of(edges: Seq<(int, int)>, a: int) -> int {
    out_neighbors_of(edges, a).len() + in_neighbors_of(edges, a).len() as int
}

/// A node is listed among the out-neighbors of `a` iff the edge list holds
/// the pair, and the listing is never longer than the edge list.
pub proof fn lemma_out_neighbors_of(edges: Seq<(int, int)>, a: int)
    ensures
        forall|b: int| #[trigger]
            out_neighbors_of(edges, a).contains(b) <==> edges.contains((a, b)),
        out_neighbors_of(edges, a).len() <= edges.len(),
    decreases edges.len(),
{
    if edges.len() > 0 {
        lemma_out_neighbors_of(edges.drop_last(), a);
        let rest = out_neighbors_of(edges.drop_last(), a);
        let whole = out_neighbors_of(edges, a);
        assert forall|b: int| #[trigger] whole.contains(b) implies edges.contains((a, b)) by {
            if edges.last().0 == a && b == edges.last().1 {
                assert(edges[edges.len() - 1] == (a, b));
            } else {
                assert(rest.contains(b));
                let i = choose|i: int| 0 <= i < rest.len() && rest[i] == b;
                let j = choose|j: int|
                    0 <= j < edges.drop_last().len() && edges.drop_last()[j] == (a, b);
                assert(edges[j] == (a, b));
            }
        }
        assert forall|b: int| edges.contains((a, b)) implies #[trigger] whole.contains(b) by {
            let i = choose|i: int| 0 <= i < edges.len() && edges[i] == (a, b);
            if i < edges.len() - 1 {
                assert(edges.drop_last()[i] == (a, b));
                assert(edges.drop_last().contains((a, b)));
                assert(rest.contains(b));
                let j = choose|j: int| 0 <= j < rest.len() && rest[j] == b;
                if edges.last().0 == a {
                    assert(whole[j + 1] == b);
                } else {
                    assert(whole[j] == b);
                }
            } else {
                assert(edges.last() == (a, b));
                assert(whole[0] == b);
            }
        }
    }
}

/// The mirror of `lemma_out_neighbors_of` for incoming edges.
pub proof fn lemma_in_neighbors_of(edges: Seq<(int, int)>, a: int)
    ensures
        forall|b: int| #[trigger]
            in_neighbors_of(edges, a).contains(b) <==> edges.contains((b, a)),
        in_neighbors_of(edges, a).len() <= edges.len(),
    decreases edges.len(),
{
    if edges.len() > 0 {
        lemma_in_neighbors_of(edges.drop_last(), a);
        let rest = in_neighbors_of(edges.drop_last(), a);
        let whole = in_neighbors_of(edges, a);
        assert forall|b: int| #[trigger] whole.contains(b) implies edges.contains((b, a)) by {
            if edges.last().1 == a && b == edges.last().0 {
                assert(edges[edges.len() - 1] == (b, a));
            } else {
                assert(rest.contains(b));
                let j = choose|j: int|
                    0 <= j < edges.drop_last().len() && edges.drop_last()[j] == (b, a);
                assert(edges[j] == (b, a));
            }
        }
        assert forall|b: int| edges.contains((b, a)) implies #[trigger] whole.contains(b) by {
            let i = choose|i: int| 0 <= i < edges.len() && edges[i] == (b, a);
            if i < edges.len() - 1 {
                assert(edges.drop_last()[i] == (b, a));
                assert(edges.drop_last().contains((b, a)));
                assert(rest.contains(b));
                let j = choose|j: int| 0 <= j < rest.len() && rest[j] == b;
                if edges.last().1 == a {
                    assert(whole[j + 1] == b);
                } else {
                    assert(whole[j] == b);
                }
            } else {
                assert(edges.last() == (b, a));
                assert(whole[0] == b);
            }
        }
    }
}

/// Relies on petgraph's Graph::new: a fresh graph has no nodes and no edges.
#[verifier::external_body]
fn pg_new() -> (g: petgraph::graph::Graph<String, (), petgraph::Directed, u32>)
    ensures
        graph_nodes(g) == Seq::<Seq<char>>::empty(),
        graph_edges(g) == Seq::<(int, int)>::empty(),
{
    petgraph::graph::Graph::new()
}

/// Relies on petgraph's Graph::add_node: appends one node and returns its
/// index, which counts up from zero; it panics only at the index-type
/// limit, which the precondition rules out.
#[verifier::external_body]
fn pg_add_node(
    g: &mut petgraph::graph::Graph<String, (), petgraph::Directed, u32>,
    id: String,
) -> (r: usize)
    requires
        graph_nodes(*old(g)).len() < u32::MAX as int,
    ensures
        graph_nodes(*final(g)) == graph_nodes(*old(g)).push(id@),
        graph_edges(*final(g)) == graph_edges(*old(g)),
        r == graph_nodes(*old(g)).len(),
{
    g.add_node(id).index()
}

/// Relies on petgraph's Graph::add_edge: appends one directed edge from
/// `a` to `b`; it panics only on an absent endpoint or at the index-type
/// limit, which the preconditions rule out.
#[verifier::external_body]
fn pg_add_edge(
    g: &mut petgraph::graph::Graph<String, (), petgraph::Directed, u32>,
    a: usize,
    b: usize,
)
    requires
        a < graph_nodes(*old(g)).len(),
        b < graph_nodes(*old(g)).len(),
        graph_edges(*old(g)).len() < u32::MAX as int,
    ensures
        graph_nodes(*final(g)) == graph_nodes(*old(g)),
        graph_edges(*final(g)) == graph_edges(*old(g)).push((a as int, b as int)),
{
    g.add_edge(
        petgraph::graph::NodeIndex::new(a),
        petgraph::graph::NodeIndex::new(b),
        (),
    );
}

/// Relies on petgraph's Graph::node_count.
#[verifier::external_body]
fn pg_node_count(g: &petgraph::graph::Graph<String, (), petgraph::Directed, u32>) -> (r: usize)
    ensures
        r == graph_nodes(*g).len(),
{
    g.node_count()
}

/// Relies on petgraph's Graph::edge_count.
#[verifier::external_body]
fn pg_edge_count(g: &petgraph::graph::Graph<String, (), petgraph::Directed, u32>) -> (r: usize)
    ensures
        r == graph_edges(*g).len(),
{
    g.edge_count()
}

/// Relies on petgraph's Graph::contains_edge: whether a directed edge from
/// `a` to `b` exists.
#[verifier::external_body]
fn pg_contains_edge(
    g: &petgraph::graph::Graph<String, (), petgraph::Directed, u32>,
    a: usize,
    b: usize,
) -> (r: bool)
    requires
        a < graph_nodes(*g).len(),
        b < graph_nodes(*g).len(),
    ensures
        r <==> graph_edges(*g).contains((a as int, b as int)),
{
    g.contains_edge(petgraph::graph::NodeIndex::new(a), petgraph::graph::NodeIndex::new(b))
}

/// Relies on petgraph's Graph::neighbors on a directed graph: the targets
/// of the edges leaving `a`, most recently added first.
#[verifier::external_body]
fn pg_out_neighbors(
    g: &petgraph::graph::Graph<String, (), petgraph::Directed, u32>,
    a: usize,
) -> (r: Vec<usize>)
    requires
        a < graph_nodes(*g).len(),
    ensures
        r@.map_values(|x: usize| x as int) == out_neighbors_of(graph_edges(*g), a as int),
{
    let mut v = Vec::new();
    for idx in g.neighbors(petgraph::graph::NodeIndex::new(a)) {
        v.push(idx.index());
    }
    v
}

/// Relies on petgraph's Graph::neighbors_directed with the incoming
/// direction: the sources of the edges entering `a`, most recently added
/// first.
#[verifier::external_body]
fn pg_in_neighbors(
    g: &petgraph::graph::Graph<String, (), petgraph::Directed, u32>,
    a: usize,
) -> (r: Vec<usize>)
    requires
        a < graph_nodes(*g).len(),
    ensures
        r@.map_values(|x: usize| x as int) == in_neighbors_of(graph_edges(*g), a as int),
{
    let mut v = Vec::new();
    for idx in g.neighbors_directed(
        petgraph::graph::NodeIndex::new(a),
        petgraph::Direction::Incoming,
    ) {
        v.push(idx.index());
    }
    v
}

/// Directed dependency graph over package identifiers.
pub struct DependencyGraph {
    inner: petgraph::graph::Graph<String, (), petgraph::Directed, u32>,
    ids: Vec<String>,
}

impl DependencyGraph {
    /// The node identifiers, in insertion order.
    pub closed spec fn nodes(&self) -> Seq<Seq<char>> {
        graph_nodes(self.inner)
    }

    /// The directed edges, as node-index pairs in insertion order.
    pub closed spec fn edges(&self) -> Seq<(int, int)> {
        graph_edges(self.inner)
    }

    pub closed spec fn inv(&self) -> bool {
        &&& self.ids.deep_view() == graph_nodes(self.inner)
        &&& (forall|i: int, j: int|
            0 <= i < j < graph_nodes(self.inner).len() ==> graph_nodes(self.inner)[i]
                != graph_nodes(self.inner)[j])
        &&& (forall|e: (int, int)| #[trigger]
            graph_edges(self.inner).contains(e) ==> 0 <= e.0 < graph_nodes(self.inner).len()
                && 0 <= e.1 < graph_nodes(self.inner).len())
        &&& (forall|i: int, j: int|
            0 <= i < j < graph_edges(self.inner).len() ==> graph_edges(self.inner)[i]
                != graph_edges(self.inner)[j])
        &&& graph_nodes(self.inner).len() <= u32::MAX as int
        &&& graph_edges(self.inner).len() <= u32::MAX as int
    }

    /// What the invariant guarantees of the views: every edge joins two
    /// valid node indices, identifiers are unique, edges are unique, and
    /// both counts stay within the index-type limit.
    pub proof fn lemma_inv_facts(&self)
        requires
            self.inv(),
        ensures
            forall|e: (int, int)| #[trigger]
                self.edges().contains(e) ==> 0 <= e.0 < self.nodes().len() && 0 <= e.1
                    < self.nodes().len(),
            forall|i: int, j: int|
                0 <= i < j < self.nodes().len() ==> self.nodes()[i] != self.nodes()[j],
            forall|i: int, j: int|
                0 <= i < j < self.edges().len() ==> self.edges()[i] != self.edges()[j],
            self.nodes().len() <= u32::MAX as int,
            self.edges().len() <= u32::MAX as int,
    {
    }

    /// An empty graph.
    pub fn new() -> (r: Self)
        ensures
            r.inv(),
            r.nodes() == Seq::<Seq<char>>::empty(),
            r.edges() == Seq::<(int, int)>::empty(),
    {
        let r = DependencyGraph { inner: pg_new(), ids: Vec::new() };
        proof {
            assert(r.ids.deep_view() =~= graph_nodes(r.inner));
            assert forall|e: (int, int)| #[trigger]
                graph_edges(r.inner).contains(e) implies 0 <= e.0 < graph_nodes(r.inner).len()
                && 0 <= e.1 < graph_nodes(r.inner).len() by {
                let x = choose|x: int|
                    0 <= x < graph_edges(r.inner).len() && graph_edges(r.inner)[x] == e;
            }
        }
        r
    }

    /// The index of an identifier, if it is a node.
    pub fn find_node(&self, id: &str) -> (r: Option<usize>)
        requires
            self.inv(),
        ensures
            match r {
                Some(i) => i < self.nodes().len() && self.nodes()[i as int] == id@,
                None => !self.nodes().contains(id@),
            },
    {
        let n = self.ids.len();
        let mut i: usize = 0;
        while i < n
            invariant
                self.inv(),
                n == self.ids@.len(),
                i <= n,
                forall|j: int| 0 <= j < i ==> self.nodes()[j] != id@,
            decreases n - i,
        {
            proof {
                assert(self.nodes()[i as int] == self.ids@[i as int]@);
            }
            if str_eq(self.ids[i].as_str(), id) {
                return Some(i);
            }
            i += 1;
        }
        proof {
            if self.nodes().contains(id@) {
                let j = choose|j: int| 0 <= j < self.nodes().len() && self.nodes()[j] == id@;
                assert(self.nodes()[j] != id@);
            }
        }
        None
    }

    /// Number of nodes.
    pub fn node_count(&self) -> (r: usize)
        requires
            self.inv(),
        ensures
            r == self.nodes().len(),
    {
        pg_node_count(&self.inner)
    }

    /// Add a node for an identifier and hand the identifier back. A second
    /// add of the same identifier leaves the graph unchanged.
    pub fn add_node(&mut self, id: String) -> (r: String)
        requires
            old(self).inv(),
            old(self).nodes().len() < u32::MAX as int,
        ensures
            final(self).inv(),
            r@ == id@,
            old(self).nodes().contains(id@) ==> final(self).nodes() == old(self).nodes()
                && final(self).edges() == old(self).edges(),
            !old(self).nodes().contains(id@) ==> final(self).nodes() == old(self).nodes().push(id@)
                && final(self).edges() == old(self).edges(),
    {
        if self.find_node(id.as_str()).is_some() {
            return id;
        }
        let own = id.as_str().to_owned();
        self.ids.push(own);
        let ghost nodes0 = graph_nodes(self.inner);
        let _ = pg_add_node(&mut self.inner, id.as_str().to_owned());
        proof {
            assert(self.ids.deep_view() =~= graph_nodes(self.inner));
            assert forall|e: (int, int)| #[trigger]
                graph_edges(self.inner).contains(e) implies 0 <= e.0 < graph_nodes(
                self.inner,
            ).len() && 0 <= e.1 < graph_nodes(self.inner).len() by {
                assert(0 <= e.0 < nodes0.len() && 0 <= e.1 < nodes0.len());
            }
        }
        id
    }

    /// Number of edges.
    pub fn edge_count(&self) -> (r: usize)
        requires
            self.inv(),
        ensures
            r == self.edges().len(),
    {
        pg_edge_count(&self.inner)
    }

    /// Add a directed "depends on" edge between two identifiers.
    ///
    /// Fails with `NodeNotFound` iff either endpoint is not a node; a
    /// duplicate edge is deduplicated, leaving the graph unchanged.
    pub fn add_edge(&mut self, from: &String, to: &String) -> (r: Result<(), ResolverError>)
        requires
            old(self).inv(),
            old(self).edges().len() < u32::MAX as int,
        ensures
            final(self).inv(),
            final(self).nodes() == old(self).nodes(),
            r is Err <==> !old(self).nodes().contains(from@) || !old(self).nodes().contains(to@),
            r is Err ==> final(self).edges() == old(self).edges() && (r matches Err(
                ResolverError::NodeNotFound(m),
            ) ==> m@ == from@ || m@ == to@),
            r is Ok ==> {
                let i = choose|i: int|
                    0 <= i < old(self).nodes().len() && old(self).nodes()[i] == from@;
                let j = choose|j: int|
                    0 <= j < old(self).nodes().len() && old(self).nodes()[j] == to@;
                if old(self).edges().contains((i, j)) {
                    final(self).edges() == old(self).edges()
                } else {
                    final(self).edges() == old(self).edges().push((i, j))
                }
            },
    {
        let i = match self.find_node(from.as_str()) {
            Some(i) => i,
            None => {
                return Err(ResolverError::NodeNotFound(from.as_str().to_owned()));
            },
        };
        let j = match self.find_node(to.as_str()) {
            Some(j) => j,
            None => {
                return Err(ResolverError::NodeNotFound(to.as_str().to_owned()));
            },
        };
        proof {
            let ci = choose|c: int|
                0 <= c < self.nodes().len() && self.nodes()[c] == from@;
            assert(ci == i as int);
            let cj = choose|c: int|
                0 <= c < self.nodes().len() && self.nodes()[c] == to@;
            assert(cj == j as int);
        }
        if pg_contains_edge(&self.inner, i, j) {
            return Ok(());
        }
        let ghost edges0 = graph_edges(self.inner);
        pg_add_edge(&mut self.inner, i, j);
        proof {
            assert forall|e: (int, int)| #[trigger]
                graph_edges(self.inner).contains(e) implies 0 <= e.0 < graph_nodes(
                self.inner,
            ).len() && 0 <= e.1 < graph_nodes(self.inner).len() by {
                if e != (i as int, j as int) {
                    let x = choose|x: int|
                        0 <= x < graph_edges(self.inner).len() && graph_edges(self.inner)[x] == e;
                    if x < edges0.len() {
                        assert(edges0[x] == e);
                        assert(edges0.contains(e));
                    }
                }
            }
            assert forall|a: int, b: int|
                0 <= a < b < graph_edges(self.inner).len() implies graph_edges(self.inner)[a]
                != graph_edges(self.inner)[b] by {
                if b == graph_edges(self.inner).len() - 1 {
                    assert(edges0[a] == graph_edges(self.inner)[a]);
                    assert(edges0.contains(edges0[a]));
                } else {
                    assert(edges0[a] == graph_edges(self.inner)[a]);
                    assert(edges0[b] == graph_edges(self.inner)[b]);
                }
            }
        }
        Ok(())
    }

    /// Identifier stored at a node index.
    pub fn id_at(&self, i: usize) -> (r: String)
        requires
            self.inv(),
            i < self.nodes().len(),
        ensures
            r@ == self.nodes()[i as int],
    {
        proof {
            assert(self.nodes()[i as int] == self.ids@[i as int]@);
        }
        self.ids[i].as_str().to_owned()
    }

    /// Out-neighbor indices of a node index, most recent edge first.
    pub fn out_neighbors_idx(&self, i: usize) -> (r: Vec<usize>)
        requires
            self.inv(),
            i < self.nodes().len(),
        ensures
            r@.map_values(|x: usize| x as int) == out_neighbors_of(self.edges(), i as int),
            forall|k: int| 0 <= k < r@.len() ==> (r@[k] as int) < self.nodes().len(),
    {
        let r = pg_out_neighbors(&self.inner, i);
        proof {
            lemma_out_neighbors_of(self.edges(), i as int);
            assert forall|k: int| 0 <= k < r@.len() implies (r@[k] as int) < self.nodes().len() by {
                let m = r@.map_values(|x: usize| x as int);
                assert(m[k] == r@[k] as int);
                assert(m.contains(m[k]));
                assert(self.edges().contains((i as int, m[k])));
            }
        }
        r
    }

    /// In-neighbor indices of a node index, most recent edge first.
    pub fn in_neighbors_idx(&self, i: usize) -> (r: Vec<usize>)
        requires
            self.inv(),
            i < self.nodes().len(),
        ensures
            r@.map_values(|x: usize| x as int) == in_neighbors_of(self.edges(), i as int),
            forall|k: int| 0 <= k < r@.len() ==> (r@[k] as int) < self.nodes().len(),
    {
        let r = pg_in_neighbors(&self.inner, i);
        proof {
            lemma_in_neighbors_of(self.edges(), i as int);
            assert forall|k: int| 0 <= k < r@.len() implies (r@[k] as int) < self.nodes().len() by {
                let m = r@.map_values(|x: usize| x as int);
                assert(m[k] == r@[k] as int);
                assert(m.contains(m[k]));
                assert(self.edges().contains((m[k], i as int)));
            }
        }
        r
    }

    /// Total degree of an identifier: incoming plus outgoing edges.
    ///
    /// Fails with `NodeNotFound` iff the identifier is not a node.
    pub fn degree(&self, id: &str) -> (r: Result<u64, ResolverError>)
        requires
            self.inv(),
        ensures
            r matches Ok(d) ==> self.nodes().contains(id@) && exists|i: int|
                0 <= i < self.nodes().len() && self.nodes()[i] == id@ && d == degree_of(
                    self.edges(),
                    i,
                ),
            r is Err <==> !self.nodes().contains(id@),
    {
        let i = match self.find_node(id) {
            Some(i) => i,
            None => {
                return Err(ResolverError::NodeNotFound(id.to_owned()));
            },
        };
        let outs = self.out_neighbors_idx(i);
        let ins = self.in_neighbors_idx(i);
        proof {
            lemma_out_neighbors_of(self.edges(), i as int);
            lemma_in_neighbors_of(self.edges(), i as int);
            assert(outs@.len() == out_neighbors_of(self.edges(), i as int).len());
            assert(ins@.len() == in_neighbors_of(self.edges(), i as int).len());
        }
        let d = outs.len() as u64 + ins.len() as u64;
        proof {
            assert(self.nodes()[i as int] == id@);
            assert(self.nodes().contains(id@));
        }
        Ok(d)
    }

    /// Outgoing neighbor identifiers of an identifier, most recent edge
    /// first.
    ///
    /// Fails with `NodeNotFound` iff the identifier is not a node.
    pub fn neighbors(&self, id: &str) -> (r: Result<Vec<String>, ResolverError>)
        requires
            self.inv(),
        ensures
            r matches Ok(ns) ==> exists|i: int|
                {
                    &&& 0 <= i < self.nodes().len()
                    &&& self.nodes()[i] == id@
                    &&& ns.deep_view() == out_neighbors_of(self.edges(), i).map_values(
                        |x: int| self.nodes()[x],
                    )
                },
            r is Err <==> !self.nodes().contains(id@),
    {
        let i = match self.find_node(id) {
            Some(i) => i,
            None => {
                return Err(ResolverError::NodeNotFound(id.to_owned()));
            },
        };
        let idxs = self.out_neighbors_idx(i);
        let mut out: Vec<String> = Vec::new();
        let mut k: usize = 0;
        let n = idxs.len();
        while k < n
            invariant
                self.inv(),
                n == idxs@.len(),
                k <= n,
                forall|m: int| 0 <= m < n ==> (idxs@[m] as int) < self.nodes().len(),
                out.deep_view() =~= idxs@.map_values(|x: usize| x as int).take(k as int).map_values(
                    |x: int| self.nodes()[x],
                ),
            decreases n - k,
        {
            let ghost dv0 = out.deep_view();
            let id_k = self.id_at(idxs[k]);
            out.push(id_k);
            proof {
                let mapped = idxs@.map_values(|x: usize| x as int);
                assert(out.deep_view() =~= dv0.push(id_k@));
                assert(mapped.take(k + 1) =~= mapped.take(k as int).push(mapped[k as int]));
                assert(mapped.take(k + 1).map_values(|x: int| self.nodes()[x]) =~= mapped.take(
                    k as int,
                ).map_values(|x: int| self.nodes()[x]).push(self.nodes()[mapped[k as int]]));
                assert(id_k@ == self.nodes()[mapped[k as int]]);
                assert(out.deep_view() =~= mapped.take(k + 1).map_values(
                    |x: int| self.nodes()[x],
                ));
            }
            k += 1;
        }
        proof {
            let mapped = idxs@.map_values(|x: usize| x as int);
            assert(mapped.take(n as int) =~= mapped);
            assert(self.nodes()[i as int] == id@);
        }
        Ok(out)
    }
}

} // verus!
