//! The recommendation graph: an undirected, weighted graph over record
//! identifiers with at most one edge between two nodes.
//!
//! Nodes and edges live in a `petgraph::graph::Graph`.  Its behaviour is
//! stated by the contracts of a few small wrappers; the rest is proved from
//! them.

use crate::model::ProductId;
use crate::ranking::{lemma_ranked_permutes, rank_neighbors, ranked, top_ids, Neighbor};
use petgraph::graph::{EdgeIndex, Graph, NodeIndex};
use petgraph::Undirected;
use std::collections::HashMap;
use vstd::prelude::*;
use vstd::seq_lib::*;

verus! {

broadcast use vstd::std_specs::hash::group_hash_axioms;

/// The type `Graph` of the crate `petgraph`; nothing is known of what a
/// value of it holds but what the wrappers below state.
#[verifier::external_type_specification]
#[verifier::external_body]
#[verifier::reject_recursive_types(N)]
#[verifier::reject_recursive_types(E)]
#[verifier::reject_recursive_types(Ty)]
#[verifier::reject_recursive_types(Ix)]
pub struct ExGraph<N, E, Ty, Ix>(Graph<N, E, Ty, Ix>);

/// The marker type `Undirected` of the crate `petgraph`, which makes the
/// edges of a `Graph` undirected.
#[verifier::external_type_specification]
#[verifier::external_body]
pub struct ExUndirected(Undirected);

/// An edge between two nodes named by their identifiers, with its weight.
pub type Edge = (ProductId, ProductId, u32);

/// An edge between two nodes named by their index in the graph, with its
/// weight.
pub type Link = (usize, usize, u32);

/// The identifiers that the nodes of a graph carry, by node index.
pub uninterp spec fn graph_nodes(g: Graph<ProductId, u32, Undirected>) -> Seq<ProductId>;

/// The edges of a graph, by edge index: the index of the node an edge was
/// added from, the index of the node it was added to, and its weight.
pub uninterp spec fn graph_edges(g: Graph<ProductId, u32, Undirected>) -> Seq<Link>;

/// Whether the edge `e` lies between `a` and `b`, in either direction.
pub open spec fn joins<T>(e: (T, T, u32), a: T, b: T) -> bool {
    (e.0 == a && e.1 == b) || (e.0 == b && e.1 == a)
}

/// The end of `e` that is not `a` (or `a` itself for a loop at `a`).
pub open spec fn far_end<T>(e: (T, T, u32), a: T) -> T {
    if e.0 == a {
        e.1
    } else {
        e.0
    }
}

/// The places of the edges that were added from `a`, newest first.
pub open spec fn leaving<T>(edges: Seq<(T, T, u32)>, a: T) -> Seq<int>
    decreases edges.len(),
{
    if edges.len() == 0 {
        Seq::empty()
    } else if edges.last().0 == a {
        seq![edges.len() - 1] + leaving(edges.drop_last(), a)
    } else {
        leaving(edges.drop_last(), a)
    }
}

/// The places of the edges that were added to `a` from another node, newest
/// first.
pub open spec fn arriving<T>(edges: Seq<(T, T, u32)>, a: T) -> Seq<int>
    decreases edges.len(),
{
    if edges.len() == 0 {
        Seq::empty()
    } else if edges.last().1 == a && edges.last().0 != a {
        seq![edges.len() - 1] + arriving(edges.drop_last(), a)
    } else {
        arriving(edges.drop_last(), a)
    }
}

/// The places of the edges at `a` in the order in which the graph walks
/// them: first the edges added from `a`, newest first, then the edges added
/// to `a`, newest first.
pub open spec fn incident<T>(edges: Seq<(T, T, u32)>, a: T) -> Seq<int> {
    leaving(edges, a) + arriving(edges, a)
}

/// The far ends of the edges at `a`, in the order of `incident`.
pub open spec fn far_ends<T>(edges: Seq<(T, T, u32)>, a: T) -> Seq<T> {
    incident(edges, a).map_values(|i: int| far_end(edges[i], a))
}

/// Whether some edge of `edges` lies between `a` and `b`.
pub open spec fn has_edge<T>(edges: Seq<(T, T, u32)>, a: T, b: T) -> bool {
    exists|i: int| 0 <= i < edges.len() && joins(#[trigger] edges[i], a, b)
}

/// The place of an edge between `a` and `b`.
pub open spec fn edge_index<T>(edges: Seq<(T, T, u32)>, a: T, b: T) -> int {
    choose|i: int| 0 <= i < edges.len() && joins(#[trigger] edges[i], a, b)
}

/// `edges` with the weight of the edge at `i` replaced by `weight`.
pub open spec fn reweighed<T>(edges: Seq<(T, T, u32)>, i: int, weight: u32) -> Seq<(T, T, u32)> {
    edges.update(i, (edges[i].0, edges[i].1, weight))
}

/// `Graph::new_undirected` of the crate `petgraph`: a graph without nodes
/// and edges.
#[verifier::external_body]
fn graph_new() -> (g: Graph<ProductId, u32, Undirected>)
    ensures
        graph_nodes(g) == Seq::<ProductId>::empty(),
        graph_edges(g) == Seq::<Link>::empty(),
{
    Graph::new_undirected()
}

/// `Graph::node_count` of the crate `petgraph`.
#[verifier::external_body]
fn graph_node_count(g: &Graph<ProductId, u32, Undirected>) -> (n: usize)
    ensures
        n == graph_nodes(*g).len(),
{
    g.node_count()
}

/// `Graph::edge_count` of the crate `petgraph`.
#[verifier::external_body]
fn graph_edge_count(g: &Graph<ProductId, u32, Undirected>) -> (n: usize)
    ensures
        n == graph_edges(*g).len(),
{
    g.edge_count()
}

/// `Graph::add_node` of the crate `petgraph`: the new node gets the next
/// index and carries `id`; the edges stay.  The call does not return for a
/// graph that has as many nodes as a 32-bit index can tell apart.
#[verifier::external_body]
fn graph_add_node(g: &mut Graph<ProductId, u32, Undirected>, id: ProductId) -> (at: usize)
    requires
        graph_nodes(*old(g)).len() < u32::MAX,
    ensures
        at == graph_nodes(*old(g)).len(),
        graph_nodes(*final(g)) == graph_nodes(*old(g)).push(id),
        graph_edges(*final(g)) == graph_edges(*old(g)),
{
    g.add_node(id).index()
}

/// `Graph::update_edge` of the crate `petgraph` on an undirected graph:
/// where an edge lies between `a` and `b`, in either direction, its weight
/// becomes `weight`; where none does, an edge from `a` to `b` is added
/// behind the others.  The nodes stay.
#[verifier::external_body]
fn graph_update_edge(g: &mut Graph<ProductId, u32, Undirected>, a: usize, b: usize, weight: u32)
    requires
        a < graph_nodes(*old(g)).len(),
        b < graph_nodes(*old(g)).len(),
        graph_edges(*old(g)).len() < u32::MAX,
    ensures
        graph_nodes(*final(g)) == graph_nodes(*old(g)),
        has_edge(graph_edges(*old(g)), a, b) ==> exists|i: int|
            0 <= i < graph_edges(*old(g)).len() && joins(#[trigger] graph_edges(*old(g))[i], a, b)
                && graph_edges(*final(g)) == reweighed(graph_edges(*old(g)), i, weight),
        !has_edge(graph_edges(*old(g)), a, b) ==> graph_edges(*final(g)) == graph_edges(
            *old(g),
        ).push((a, b, weight)),
{
    g.update_edge(NodeIndex::new(a), NodeIndex::new(b), weight);
}

/// `Graph::neighbors` of the crate `petgraph` on an undirected graph, each
/// neighbour given by its node index: the far ends of the edges at `a`, in
/// the order of `incident`.  A neighbour comes once for each edge that leads
/// to it.
#[verifier::external_body]
fn graph_neighbors(g: &Graph<ProductId, u32, Undirected>, a: usize) -> (out: Vec<usize>)
    requires
        a < graph_nodes(*g).len(),
    ensures
        out@ == far_ends(graph_edges(*g), a),
{
    g.neighbors(NodeIndex::new(a)).map(|n| n.index()).collect()
}

/// `Graph::find_edge` of the crate `petgraph` on an undirected graph: the
/// index of an edge between `a` and `b`, in either direction, or `None`
/// where there is none.
#[verifier::external_body]
fn graph_find_edge(g: &Graph<ProductId, u32, Undirected>, a: usize, b: usize) -> (at: Option<usize>)
    requires
        a < graph_nodes(*g).len(),
        b < graph_nodes(*g).len(),
    ensures
        match at {
            Some(e) => e < graph_edges(*g).len() && joins(graph_edges(*g)[e as int], a, b),
            None => !has_edge(graph_edges(*g), a, b),
        },
{
    g.find_edge(NodeIndex::new(a), NodeIndex::new(b)).map(|e| e.index())
}

/// `Graph::edge_weight` of the crate `petgraph`, with the weight copied
/// out: the weight of the edge at index `e`.
#[verifier::external_body]
fn graph_edge_weight(g: &Graph<ProductId, u32, Undirected>, e: usize) -> (weight: Option<u32>)
    requires
        e < graph_edges(*g).len(),
    ensures
        weight == Some(graph_edges(*g)[e as int].2),
{
    g.edge_weight(EdgeIndex::new(e)).copied()
}

/// Indexing a `Graph` of the crate `petgraph` by a node index: the
/// identifier that the node carries.
#[verifier::external_body]
fn graph_node_id(g: &Graph<ProductId, u32, Undirected>, n: usize) -> (id: ProductId)
    requires
        n < graph_nodes(*g).len(),
    ensures
        id == graph_nodes(*g)[n as int],
{
    g[NodeIndex::new(n)]
}

/// The weight of the edge between `a` and `b`, if there is one.
pub open spec fn weight_in(edges: Seq<Edge>, a: ProductId, b: ProductId) -> Option<u32> {
    if has_edge(edges, a, b) {
        Some(edges[edge_index(edges, a, b)].2)
    } else {
        None
    }
}

/// At most one edge lies between two nodes.
pub open spec fn simple(edges: Seq<Edge>) -> bool {
    forall|i: int, j: int|
        0 <= i < j < edges.len() ==> !joins(#[trigger] edges[j], (#[trigger] edges[i]).0, edges[i].1)
}

/// `edges` after the weight between `a` and `b` is set to `weight`: the edge
/// between them keeps its place and its ends and gets the new weight; where
/// there was none, an edge from `a` to `b` is added behind the others.
pub open spec fn with_edge(edges: Seq<Edge>, a: ProductId, b: ProductId, weight: u32) -> Seq<Edge> {
    if has_edge(edges, a, b) {
        reweighed(edges, edge_index(edges, a, b), weight)
    } else {
        edges.push((a, b, weight))
    }
}

/// The neighbours of `id` with the weights of the edges that lead to them,
/// in the order in which the graph walks the edges at `id` (see `incident`).
pub open spec fn neighbors_in(edges: Seq<Edge>, id: ProductId) -> Seq<Neighbor> {
    incident(edges, id).map_values(|i: int| (far_end(edges[i], id), edges[i].2))
}

/// The edges between indices as edges between the identifiers that the
/// nodes carry.
pub open spec fn named_edges(nodes: Seq<ProductId>, links: Seq<Link>) -> Seq<Edge> {
    links.map_values(|l: Link| (nodes[l.0 as int], nodes[l.1 as int], l.2))
}

/// Every place that `leaving` and `arriving` give is the place of an edge
/// with an end at `a`.
pub proof fn lemma_incident_in_range<T>(edges: Seq<(T, T, u32)>, a: T)
    ensures
        forall|k: int|
            0 <= k < leaving(edges, a).len() ==> 0 <= (#[trigger] leaving(edges, a)[k])
                < edges.len() && edges[leaving(edges, a)[k]].0 == a,
        forall|k: int|
            0 <= k < arriving(edges, a).len() ==> 0 <= (#[trigger] arriving(edges, a)[k])
                < edges.len() && edges[arriving(edges, a)[k]].1 == a && edges[arriving(
                edges,
                a,
            )[k]].0 != a,
        forall|k: int|
            0 <= k < incident(edges, a).len() ==> 0 <= (#[trigger] incident(edges, a)[k])
                < edges.len() && joins(
                edges[incident(edges, a)[k]],
                a,
                far_end(edges[incident(edges, a)[k]], a),
            ),
    decreases edges.len(),
{
    if edges.len() > 0 {
        let older = edges.drop_last();
        lemma_incident_in_range(older, a);
        assert forall|k: int| 0 <= k < leaving(edges, a).len() implies 0 <= (#[trigger] leaving(
            edges,
            a,
        )[k]) < edges.len() && edges[leaving(edges, a)[k]].0 == a by {
            if edges.last().0 == a {
                if k > 0 {
                    assert(leaving(edges, a)[k] == leaving(older, a)[k - 1]);
                    assert(edges[leaving(older, a)[k - 1]] == older[leaving(older, a)[k - 1]]);
                }
            } else {
                assert(edges[leaving(older, a)[k]] == older[leaving(older, a)[k]]);
            }
        }
        assert forall|k: int| 0 <= k < arriving(edges, a).len() implies 0 <= (#[trigger] arriving(
            edges,
            a,
        )[k]) < edges.len() && edges[arriving(edges, a)[k]].1 == a && edges[arriving(
            edges,
            a,
        )[k]].0 != a by {
            if edges.last().1 == a && edges.last().0 != a {
                if k > 0 {
                    assert(arriving(edges, a)[k] == arriving(older, a)[k - 1]);
                    assert(edges[arriving(older, a)[k - 1]] == older[arriving(older, a)[k - 1]]);
                }
            } else {
                assert(edges[arriving(older, a)[k]] == older[arriving(older, a)[k]]);
            }
        }
    }
    assert forall|k: int| 0 <= k < incident(edges, a).len() implies 0 <= (#[trigger] incident(
        edges,
        a,
    )[k]) < edges.len() && joins(
        edges[incident(edges, a)[k]],
        a,
        far_end(edges[incident(edges, a)[k]], a),
    ) by {
        let n = leaving(edges, a).len() as int;
        if k < n {
            assert(incident(edges, a)[k] == leaving(edges, a)[k]);
        } else {
            assert(incident(edges, a)[k] == arriving(edges, a)[k - n]);
        }
    }
}

/// Naming the nodes by the identifiers they carry does not change which
/// edges lie at a node, nor their order, as long as no two nodes carry the
/// same identifier.
proof fn lemma_incident_named(nodes: Seq<ProductId>, links: Seq<Link>, at: usize)
    requires
        nodes.no_duplicates(),
        at < nodes.len(),
        forall|k: int|
            0 <= k < links.len() ==> (#[trigger] links[k]).0 < nodes.len() && links[k].1
                < nodes.len(),
    ensures
        leaving(named_edges(nodes, links), nodes[at as int]) == leaving(links, at),
        arriving(named_edges(nodes, links), nodes[at as int]) == arriving(links, at),
        incident(named_edges(nodes, links), nodes[at as int]) == incident(links, at),
    decreases links.len(),
{
    let edges = named_edges(nodes, links);
    if links.len() > 0 {
        let older = links.drop_last();
        assert(edges.drop_last() =~= named_edges(nodes, older));
        assert forall|k: int| 0 <= k < older.len() implies (#[trigger] older[k]).0 < nodes.len()
            && older[k].1 < nodes.len() by {
            assert(older[k] == links[k]);
        }
        lemma_incident_named(nodes, older, at);
        let l = links.last();
        assert(l == links[links.len() - 1]);
        assert(edges.last() == (nodes[l.0 as int], nodes[l.1 as int], l.2));
        assert((nodes[l.0 as int] == nodes[at as int]) == (l.0 == at));
        assert((nodes[l.1 as int] == nodes[at as int]) == (l.1 == at));
    }
}

/// A weighted, undirected graph over record identifiers, for "related
/// product" recommendations.
pub struct Recommender {
    graph: Graph<ProductId, u32, Undirected>,
    node_map: HashMap<ProductId, usize>,
}

impl Recommender {
    /// The registered identifiers.
    pub closed spec fn nodes(&self) -> Set<ProductId> {
        graph_nodes(self.graph).to_set()
    }

    /// The edges, oldest first, each with the identifier it was added from,
    /// the identifier it was added to, and its weight.
    pub closed spec fn edges(&self) -> Seq<Edge> {
        named_edges(graph_nodes(self.graph), graph_edges(self.graph))
    }

    /// The graph's invariant: every identifier is registered once and found
    /// again by the lookup map, every edge ends at registered nodes, and at
    /// most one edge lies between two nodes.
    pub closed spec fn wf(&self) -> bool {
        let nodes = graph_nodes(self.graph);
        let links = graph_edges(self.graph);
        &&& forall|id: ProductId| #[trigger]
            self.node_map@.contains_key(id) ==> self.node_map@[id] < nodes.len()
                && nodes[self.node_map@[id] as int] == id
        &&& forall|i: int|
            0 <= i < nodes.len() ==> self.node_map@.contains_key(#[trigger] nodes[i])
                && self.node_map@[nodes[i]] == i
        &&& forall|k: int|
            0 <= k < links.len() ==> (#[trigger] links[k]).0 < nodes.len() && links[k].1
                < nodes.len()
        &&& forall|i: int, j: int|
            0 <= i < j < links.len() ==> !joins(
                #[trigger] links[j],
                (#[trigger] links[i]).0,
                links[i].1,
            )
    }

    /// Whether `id` is registered.
    pub open spec fn has_node(&self, id: ProductId) -> bool {
        self.nodes().contains(id)
    }

    /// The neighbours of `id` with the weights of the edges to them, in the
    /// order in which ties are broken: first the neighbours that `id` was
    /// linked to by `add_edge(id, _)`, latest link first, then those that
    /// were linked to `id` by `add_edge(_, id)`, latest link first.
    pub open spec fn neighbors(&self, id: ProductId) -> Seq<Neighbor> {
        neighbors_in(self.edges(), id)
    }

    /// The weight between `a` and `b`, if an edge lies between them.
    pub open spec fn weight(&self, a: ProductId, b: ProductId) -> Option<u32> {
        weight_in(self.edges(), a, b)
    }

    /// What the invariant means for the model: the registered identifiers
    /// are finitely many, every edge ends at registered identifiers, and at
    /// most one edge lies between two of them.
    pub proof fn lemma_wf(&self)
        requires
            self.wf(),
        ensures
            self.nodes().finite(),
            simple(self.edges()),
            forall|k: int|
                0 <= k < self.edges().len() ==> self.has_node((#[trigger] self.edges()[k]).0)
                    && self.has_node(self.edges()[k].1),
    {
        let nodes = graph_nodes(self.graph);
        let links = graph_edges(self.graph);
        let edges = self.edges();
        seq_to_set_is_finite(nodes);
        assert forall|k: int| 0 <= k < edges.len() implies self.has_node((#[trigger] edges[k]).0)
            && self.has_node(edges[k].1) by {
            let l = links[k];
            assert(nodes.contains(nodes[l.0 as int]));
            assert(nodes.contains(nodes[l.1 as int]));
        }
        assert forall|i: int, j: int| 0 <= i < j < edges.len() implies !joins(
            #[trigger] edges[j],
            (#[trigger] edges[i]).0,
            edges[i].1,
        ) by {
            let li = links[i];
            let lj = links[j];
            assert(!joins(lj, li.0, li.1));
            assert(self.node_map@[nodes[li.0 as int]] == li.0);
            assert(self.node_map@[nodes[li.1 as int]] == li.1);
            assert(self.node_map@[nodes[lj.0 as int]] == lj.0);
            assert(self.node_map@[nodes[lj.1 as int]] == lj.1);
        }
    }

    proof fn lemma_nodes_distinct(&self)
        requires
            self.wf(),
        ensures
            graph_nodes(self.graph).no_duplicates(),
            graph_nodes(self.graph).len() == self.nodes().len(),
            forall|id: ProductId| self.has_node(id) <==> self.node_map@.contains_key(id),
    {
        let nodes = graph_nodes(self.graph);
        assert forall|i: int, j: int| 0 <= i < nodes.len() && 0 <= j < nodes.len() && i
            != j implies nodes[i] != nodes[j] by {
            assert(self.node_map@[nodes[i]] == i);
            assert(self.node_map@[nodes[j]] == j);
        }
        nodes.unique_seq_to_set();
        assert forall|id: ProductId| self.has_node(id) <==> self.node_map@.contains_key(id) by {
            if self.node_map@.contains_key(id) {
                assert(nodes[self.node_map@[id] as int] == id);
                assert(nodes.contains(id));
            }
            if nodes.contains(id) {
                let i = choose|i: int| 0 <= i < nodes.len() && nodes[i] == id;
                assert(self.node_map@.contains_key(nodes[i]));
            }
        }
    }

    /// A graph without nodes and edges.
    pub fn new() -> (rec: Self)
        ensures
            rec.wf(),
            rec.nodes() == Set::<ProductId>::empty(),
            rec.edges() == Seq::<Edge>::empty(),
    {
        let rec = Recommender { graph: graph_new(), node_map: HashMap::new() };
        proof {
            assert(rec.nodes() =~= Set::<ProductId>::empty());
            assert(rec.edges() =~= Seq::<Edge>::empty());
        }
        rec
    }

    /// Whether `id` is registered.
    pub fn is_registered(&self, id: ProductId) -> (b: bool)
        requires
            self.wf(),
        ensures
            b == self.has_node(id),
    {
        proof {
            self.lemma_nodes_distinct();
        }
        self.node_map.contains_key(&id)
    }

    /// The number of registered identifiers.
    pub fn node_count(&self) -> (n: usize)
        requires
            self.wf(),
        ensures
            n == self.nodes().len(),
    {
        proof {
            self.lemma_nodes_distinct();
        }
        graph_node_count(&self.graph)
    }

    /// The number of edges.
    pub fn edge_count(&self) -> (n: usize)
        ensures
            n == self.edges().len(),
    {
        graph_edge_count(&self.graph)
    }

    /// Registers `id`.  Registering an identifier again changes nothing: the
    /// node and its edges stay as they are.
    pub fn add_node(&mut self, id: ProductId)
        requires
            old(self).wf(),
            old(self).has_node(id) || old(self).nodes().len() < u32::MAX,
        ensures
            final(self).wf(),
            final(self).nodes() == old(self).nodes().insert(id),
            final(self).edges() == old(self).edges(),
            final(self).nodes().len() == old(self).nodes().len() + if old(self).has_node(id) {
                0int
            } else {
                1int
            },
    {
        proof {
            self.lemma_nodes_distinct();
        }
        if self.node_map.contains_key(&id) {
            proof {
                assert(self.nodes() =~= self.nodes().insert(id));
            }
            return ;
        }
        let ghost before = *self;
        let ghost nodes = graph_nodes(self.graph);
        let ghost links = graph_edges(self.graph);
        let at = graph_add_node(&mut self.graph, id);
        self.node_map.insert(id, at);
        proof {
            let nodes2 = graph_nodes(self.graph);
            assert(nodes2 == nodes.push(id));
            nodes.lemma_push_to_set_commute(id);
            assert forall|i: int| 0 <= i < nodes2.len() implies self.node_map@.contains_key(
                #[trigger] nodes2[i],
            ) && self.node_map@[nodes2[i]] == i by {
                if i < nodes.len() {
                    assert(nodes2[i] == nodes[i]);
                    assert(before.node_map@.contains_key(nodes[i]));
                    assert(nodes[i] != id);
                }
            }
            assert forall|k: int| 0 <= k < links.len() implies (#[trigger] links[k]).0
                < nodes2.len() && links[k].1 < nodes2.len() by {}
            assert(self.edges() =~= before.edges()) by {
                assert forall|k: int| 0 <= k < links.len() implies named_edges(nodes2, links)[k]
                    == named_edges(nodes, links)[k] by {
                    assert(links[k].0 < nodes.len() && links[k].1 < nodes.len());
                }
            }
            assert(self.wf());
            self.lemma_nodes_distinct();
        }
    }

    /// Sets the weight between `a` and `b`, which must both be registered.
    /// An edge between them, whichever way it was added, keeps its place and
    /// gets the new weight; where there is none, one is added.  `weight` is
    /// the bit pattern of the weight (see the module `scalar`).
    pub fn add_edge(&mut self, a: ProductId, b: ProductId, weight: u32)
        requires
            old(self).wf(),
            old(self).has_node(a),
            old(self).has_node(b),
            old(self).edges().len() < u32::MAX,
        ensures
            final(self).wf(),
            final(self).nodes() == old(self).nodes(),
            final(self).edges() == with_edge(old(self).edges(), a, b, weight),
            final(self).weight(a, b) == Some(weight),
            final(self).weight(b, a) == Some(weight),
            final(self).edges().len() == old(self).edges().len() + if old(self).weight(
                a,
                b,
            ).is_some() {
                0int
            } else {
                1int
            },
    {
        proof {
            self.lemma_nodes_distinct();
            self.lemma_wf();
        }
        let ghost before = *self;
        let ghost nodes = graph_nodes(self.graph);
        let ghost links = graph_edges(self.graph);
        let ghost edges = self.edges();
        let ia = *self.node_map.get(&a).unwrap();
        let ib = *self.node_map.get(&b).unwrap();
        proof {
            assert forall|i: int| 0 <= i < links.len() implies (joins(#[trigger] links[i], ia, ib)
                <==> joins(edges[i], a, b)) by {
                let l = links[i];
                assert(self.node_map@[nodes[l.0 as int]] == l.0);
                assert(self.node_map@[nodes[l.1 as int]] == l.1);
            }
        }
        graph_update_edge(&mut self.graph, ia, ib, weight);
        proof {
            let links2 = graph_edges(self.graph);
            let edges2 = self.edges();
            if has_edge(edges, a, b) {
                let w = edge_index(edges, a, b);
                assert(joins(links[w], ia, ib));
                assert(has_edge(links, ia, ib));
                let i = choose|i: int|
                    0 <= i < links.len() && joins(#[trigger] links[i], ia, ib) && links2
                        == reweighed(links, i, weight);
                assert(joins(edges[i], a, b));
                assert(i == w) by {
                    if i < w {
                        assert(!joins(edges[w], edges[i].0, edges[i].1));
                    }
                    if w < i {
                        assert(!joins(edges[i], edges[w].0, edges[w].1));
                    }
                }
                assert(edges2 =~= with_edge(edges, a, b, weight));
                assert forall|x: int, y: int| 0 <= x < y < links2.len() implies !joins(
                    #[trigger] links2[y],
                    (#[trigger] links2[x]).0,
                    links2[x].1,
                ) by {
                    assert(!joins(links[y], links[x].0, links[x].1));
                }
                assert forall|k: int| 0 <= k < links2.len() implies (#[trigger] links2[k]).0
                    < nodes.len() && links2[k].1 < nodes.len() by {
                    assert(links[k].0 < nodes.len() && links[k].1 < nodes.len());
                }
                assert(joins(edges2[i], a, b));
                assert(joins(edges2[i], b, a));
            } else {
                assert forall|i: int| 0 <= i < links.len() implies !joins(
                    #[trigger] links[i],
                    ia,
                    ib,
                ) by {
                    assert(!joins(edges[i], a, b));
                }
                assert(!has_edge(links, ia, ib));
                assert(links2 == links.push((ia, ib, weight)));
                assert(edges2 =~= with_edge(edges, a, b, weight));
                assert forall|x: int, y: int| 0 <= x < y < links2.len() implies !joins(
                    #[trigger] links2[y],
                    (#[trigger] links2[x]).0,
                    links2[x].1,
                ) by {
                    if y == links.len() {
                        assert(!joins(links[x], ia, ib));
                    } else {
                        assert(!joins(links[y], links[x].0, links[x].1));
                    }
                }
                assert forall|k: int| 0 <= k < links2.len() implies (#[trigger] links2[k]).0
                    < nodes.len() && links2[k].1 < nodes.len() by {
                    if k < links.len() {
                        assert(links[k].0 < nodes.len() && links[k].1 < nodes.len());
                    }
                }
                let n = links.len() as int;
                assert(joins(edges2[n], a, b));
                assert(joins(edges2[n], b, a));
            }
            assert(self.wf());
            self.lemma_wf();
            lemma_weight_is(edges2, a, b, weight);
            lemma_weight_is(edges2, b, a, weight);
        }
    }

    /// The neighbours of `id` by descending weight, at most `top_n` of them.
    ///
    /// An identifier that is not registered has no recommendations.  For a
    /// registered one the neighbours are ranked by descending weight;
    /// neighbours of equal weight keep the order of `neighbors`.  The first
    /// `top_n` identifiers of that ranking are returned, or all of them where
    /// there are fewer.
    pub fn recommend(&self, id: ProductId, top_n: usize) -> (result: Vec<ProductId>)
        requires
            self.wf(),
        ensures
            !self.has_node(id) ==> result@ == Seq::<ProductId>::empty(),
            self.has_node(id) ==> result@ == top_ids(ranked(self.neighbors(id)), top_n as nat),
            result.len() <= top_n,
            result.len() <= self.neighbors(id).len(),
            top_n >= self.neighbors(id).len() ==> result.len() == self.neighbors(id).len(),
    {
        proof {
            self.lemma_nodes_distinct();
            lemma_ranked_permutes(self.neighbors(id));
        }
        let at = match self.node_map.get(&id) {
            None => {
                proof {
                    self.lemma_wf();
                    lemma_no_edge_no_neighbor(self.edges(), id);
                }
                return Vec::new();
            },
            Some(at) => *at,
        };
        let neigh = self.collect_neighbors(id, at);
        let sorted = rank_neighbors(&neigh);
        let mut result: Vec<ProductId> = Vec::new();
        let mut k: usize = 0;
        proof {
            assert(sorted@.take(0).map_values(|e: Neighbor| e.0) =~= result@);
        }
        while k < sorted.len() && k < top_n
            invariant
                k <= sorted.len(),
                k <= top_n,
                result@ == sorted@.take(k as int).map_values(|e: Neighbor| e.0),
            decreases sorted.len() - k,
        {
            result.push(sorted[k].0);
            proof {
                assert(sorted@.take(k + 1).map_values(|e: Neighbor| e.0) =~= sorted@.take(
                    k as int,
                ).map_values(|e: Neighbor| e.0).push(sorted@[k as int].0));
            }
            k += 1;
        }
        result
    }

    /// The neighbours of the registered `id`, whose node has the index `at`,
    /// each with the weight of the edge to it.
    fn collect_neighbors(&self, id: ProductId, at: usize) -> (neigh: Vec<Neighbor>)
        requires
            self.wf(),
            at < graph_nodes(self.graph).len(),
            graph_nodes(self.graph)[at as int] == id,
        ensures
            neigh@ == self.neighbors(id),
    {
        let ghost nodes = graph_nodes(self.graph);
        let ghost links = graph_edges(self.graph);
        let ghost edges = self.edges();
        let ghost walk = incident(links, at);
        let near = graph_neighbors(&self.graph, at);
        proof {
            self.lemma_nodes_distinct();
            lemma_incident_named(nodes, links, at);
            lemma_incident_in_range(links, at);
            assert(incident(edges, id) == walk);
        }
        let mut neigh: Vec<Neighbor> = Vec::new();
        let mut k: usize = 0;
        proof {
            assert(self.neighbors(id).take(0) =~= neigh@);
        }
        while k < near.len()
            invariant
                k <= near.len(),
                self.wf(),
                nodes == graph_nodes(self.graph),
                links == graph_edges(self.graph),
                edges == self.edges(),
                at < nodes.len(),
                nodes[at as int] == id,
                walk == incident(links, at),
                walk == incident(edges, id),
                near@ == far_ends(links, at),
                near.len() == self.neighbors(id).len(),
                forall|m: int|
                    0 <= m < walk.len() ==> 0 <= (#[trigger] walk[m]) < links.len() && joins(
                        links[walk[m]],
                        at,
                        far_end(links[walk[m]], at),
                    ),
                neigh@ == self.neighbors(id).take(k as int),
            decreases near.len() - k,
        {
            let n = near[k];
            let ghost i = walk[k as int];
            proof {
                assert(n == far_end(links[i], at));
                assert(joins(links[i], at, n));
                assert(links[i].0 < nodes.len() && links[i].1 < nodes.len());
            }
            match graph_find_edge(&self.graph, at, n) {
                Some(e) => {
                    proof {
                        assert(e == i) by {
                            if e < i {
                                assert(!joins(links[i], links[e as int].0, links[e as int].1));
                            }
                            if i < e {
                                assert(!joins(links[e as int], links[i].0, links[i].1));
                            }
                        }
                    }
                    match graph_edge_weight(&self.graph, e) {
                        Some(w) => {
                            let other = graph_node_id(&self.graph, n);
                            neigh.push((other, w));
                            proof {
                                let l = links[i];
                                assert(edges[i] == (nodes[l.0 as int], nodes[l.1 as int], l.2));
                                assert((nodes[l.0 as int] == id) == (l.0 == at)) by {
                                    if nodes[l.0 as int] == id && l.0 != at {
                                        assert(nodes[l.0 as int] != nodes[at as int]);
                                    }
                                }
                                assert(self.neighbors(id)[k as int] == (other, w));
                                assert(self.neighbors(id).take(k + 1) =~= self.neighbors(id).take(
                                    k as int,
                                ).push((other, w)));
                            }
                        },
                        None => {
                            assert(false);
                        },
                    }
                },
                None => {
                    assert(false);
                },
            }
            k += 1;
        }
        proof {
            assert(self.neighbors(id).take(near.len() as int) =~= self.neighbors(id));
        }
        neigh
    }
}

/// A node at which no edge ends has no neighbours.
pub proof fn lemma_no_edge_no_neighbor(edges: Seq<Edge>, id: ProductId)
    requires
        forall|k: int| 0 <= k < edges.len() ==> (#[trigger] edges[k]).0 != id && edges[k].1 != id,
    ensures
        leaving(edges, id) == Seq::<int>::empty(),
        arriving(edges, id) == Seq::<int>::empty(),
        neighbors_in(edges, id) == Seq::<Neighbor>::empty(),
    decreases edges.len(),
{
    if edges.len() > 0 {
        let older = edges.drop_last();
        assert forall|k: int| 0 <= k < older.len() implies (#[trigger] older[k]).0 != id
            && older[k].1 != id by {
            assert(older[k] == edges[k]);
        }
        lemma_no_edge_no_neighbor(older, id);
        assert(edges.last() == edges[edges.len() - 1]);
    }
    assert(neighbors_in(edges, id) =~= Seq::<Neighbor>::empty());
}

/// With at most one edge between two nodes, the weight between `a` and `b`
/// is the weight of the edge that is seen between them.
pub proof fn lemma_weight_is(edges: Seq<Edge>, a: ProductId, b: ProductId, weight: u32)
    requires
        simple(edges),
        exists|i: int| 0 <= i < edges.len() && joins(#[trigger] edges[i], a, b) && edges[i].2 == weight,
    ensures
        weight_in(edges, a, b) == Some(weight),
{
    let i = choose|i: int| 0 <= i < edges.len() && joins(#[trigger] edges[i], a, b) && edges[i].2 == weight;
    let c = edge_index(edges, a, b);
    assert(joins(edges[c], a, b));
    if c < i {
        assert(!joins(edges[i], edges[c].0, edges[c].1));
    }
    if i < c {
        assert(!joins(edges[c], edges[i].0, edges[i].1));
    }
}

/// Setting the weight between two nodes a second time replaces the first
/// weight: the edges are as if only the second weight had been set, and
/// their number does not grow.
pub proof fn lemma_with_edge_overwrites(
    edges: Seq<Edge>,
    a: ProductId,
    b: ProductId,
    first: u32,
    second: u32,
)
    requires
        simple(edges),
    ensures
        simple(with_edge(edges, a, b, first)),
        weight_in(with_edge(edges, a, b, first), a, b) == Some(first),
        with_edge(with_edge(edges, a, b, first), a, b, second) == with_edge(edges, a, b, second),
        with_edge(with_edge(edges, a, b, first), b, a, second) == with_edge(edges, a, b, second),
        with_edge(with_edge(edges, a, b, first), a, b, second).len() == with_edge(
            edges,
            a,
            b,
            first,
        ).len(),
{
    let once = with_edge(edges, a, b, first);
    let at = if has_edge(edges, a, b) {
        edge_index(edges, a, b)
    } else {
        edges.len() as int
    };
    assert(0 <= at < once.len());
    assert(joins(once[at], a, b) && joins(once[at], b, a) && once[at].2 == first);
    assert forall|k: int| 0 <= k < edges.len() && k != at implies #[trigger] once[k]
        == edges[k] by {}
    assert forall|i: int, j: int| 0 <= i < j < once.len() implies !joins(
        #[trigger] once[j],
        (#[trigger] once[i]).0,
        once[i].1,
    ) by {
        if has_edge(edges, a, b) {
            assert(!joins(edges[j], edges[i].0, edges[i].1));
        } else if j == edges.len() {
            assert(!joins(edges[i], a, b));
        } else {
            assert(!joins(edges[j], edges[i].0, edges[i].1));
        }
    }
    lemma_weight_is(once, a, b, first);
    let c = edge_index(once, a, b);
    let d = edge_index(once, b, a);
    assert(has_edge(once, a, b) && has_edge(once, b, a));
    assert(joins(once[c], a, b));
    assert(joins(once[d], b, a));
    assert(c == at) by {
        if c < at {
            assert(!joins(once[at], once[c].0, once[c].1));
        }
        if at < c {
            assert(!joins(once[c], once[at].0, once[at].1));
        }
    }
    assert(d == at) by {
        if d < at {
            assert(!joins(once[at], once[d].0, once[d].1));
        }
        if at < d {
            assert(!joins(once[d], once[at].0, once[at].1));
        }
    }
    assert(with_edge(once, a, b, second) =~= with_edge(edges, a, b, second));
    assert(with_edge(once, b, a, second) =~= with_edge(edges, a, b, second));
}

} // verus!
