//! The lock graph: nodes are locks, an edge `a -> b` records that `b` was
//! acquired in a block nested in (or equal to) one holding `a`.
//!
//! The graph itself is a `petgraph::graph::Graph`. Its contents are named by
//! `lock_graph_nodes` and `lock_graph_edges`, and every method of it that
//! the detector calls has a wrapper here whose contract is read off
//! petgraph's source.

use petgraph::graph::{EdgeIndex, Graph, NodeIndex};
use crate::text::{copy_byte_lists, copy_bytes, lemma_bytes_deep_view};
use vstd::prelude::*;

verus! {

/// A lock as it stands in the graph.
pub struct GNode {
    /// The expression that names the lock.
    pub lock_name: Vec<u8>,
    /// Each acquisition of the lock: thread id and block id.
    pub tid_block: Vec<(i32, Vec<u8>)>,
    /// The primitive of each acquisition (`lock`, `read` or `write`).
    pub primitive: Vec<Vec<u8>>,
    /// Marks the node as on the current search path (1) or not (0).
    pub visit: i32,
    /// The file of the first acquisition.
    pub file_name: Vec<u8>,
    /// The line of the first acquisition.
    pub line_num: usize,
}

/// The mathematical value of a [`GNode`].
pub struct GNodeView {
    pub lock_name: Seq<u8>,
    pub tid_block: Seq<(i32, Seq<u8>)>,
    pub primitive: Seq<Seq<u8>>,
    pub visit: i32,
    pub file_name: Seq<u8>,
    pub line_num: usize,
}

impl View for GNode {
    type V = GNodeView;

    open spec fn view(&self) -> GNodeView {
        GNodeView {
            lock_name: self.lock_name@,
            tid_block: self.tid_block.deep_view(),
            primitive: self.primitive.deep_view(),
            visit: self.visit,
            file_name: self.file_name@,
            line_num: self.line_num,
        }
    }
}

/// Copies a list of (thread id, block id) pairs.
pub fn copy_tid_blocks(v: &Vec<(i32, Vec<u8>)>) -> (res: Vec<(i32, Vec<u8>)>)
    ensures
        res.deep_view() == v.deep_view(),
{
    let mut res: Vec<(i32, Vec<u8>)> = Vec::new();
    let mut i: usize = 0;
    while i < v.len()
        invariant
            i <= v@.len(),
            res.deep_view() == v.deep_view().take(i as int),
        decreases v@.len() - i,
    {
        let ghost before = res.deep_view();
        let t = (v[i].0, copy_bytes(&v[i].1));
        res.push(t);
        assert(res.deep_view() =~= v.deep_view().take(i + 1)) by {
            broadcast use lemma_bytes_deep_view;
            assert(res.deep_view() =~= before.push(v@[i as int].deep_view()));
        }
        i = i + 1;
    }
    assert(v.deep_view().take(i as int) =~= v.deep_view());
    res
}

impl GNode {
    /// A copy of the node, field by field.
    pub fn clone(&self) -> (res: GNode)
        ensures
            res@ == self@,
    {
        GNode {
            lock_name: copy_bytes(&self.lock_name),
            tid_block: copy_tid_blocks(&self.tid_block),
            primitive: copy_byte_lists(&self.primitive),
            visit: self.visit,
            file_name: copy_bytes(&self.file_name),
            line_num: self.line_num,
        }
    }
}

/// What an edge records about the acquisition that created it.
pub enum EdgeInfo {
    /// A plain mutex acquisition.
    Plain,
    /// A read or write acquisition, with the node it came from.
    LockInfo(GNode),
}

/// An edge of the lock graph.
pub struct Edge {
    pub rw: EdgeInfo,
}

impl View for Edge {
    type V = Option<GNodeView>;

    open spec fn view(&self) -> Option<GNodeView> {
        match &self.rw {
            EdgeInfo::Plain => None,
            EdgeInfo::LockInfo(g) => Some(g@),
        }
    }
}

#[verifier::external_type_specification]
#[verifier::external_body]
#[verifier::reject_recursive_types(N)]
#[verifier::reject_recursive_types(E)]
#[verifier::reject_recursive_types(Ty)]
#[verifier::reject_recursive_types(Ix)]
pub struct ExGraph<N, E, Ty, Ix>(Graph<N, E, Ty, Ix>);

#[verifier::external_type_specification]
#[verifier::external_body]
pub struct ExDirected(petgraph::Directed);

/// The node weights of a lock graph, by node index.
pub uninterp spec fn lock_graph_nodes(g: Graph<GNode, Edge>) -> Seq<GNodeView>;

/// The edges of a lock graph in the order they were added: source, target
/// and weight.
pub uninterp spec fn lock_graph_edges(g: Graph<GNode, Edge>) -> Seq<(usize, usize, Option<GNodeView>)>;

/// The targets of the edges leaving `n`, most recently added first (the
/// order in which petgraph walks a node's outgoing edge list).
pub open spec fn outgoing(edges: Seq<(usize, usize, Option<GNodeView>)>, n: int) -> Seq<usize>
    decreases edges.len(),
{
    if edges.len() == 0 {
        seq![]
    } else {
        let e = edges.last();
        let rest = outgoing(edges.drop_last(), n);
        if e.0 == n {
            seq![e.1] + rest
        } else {
            rest
        }
    }
}

/// The most recently added edge from `a` to `b`, if any.
pub open spec fn find_edge_spec(edges: Seq<(usize, usize, Option<GNodeView>)>, a: int, b: int) -> Option<int>
    decreases edges.len(),
{
    if edges.len() == 0 {
        None
    } else if edges.last().0 == a && edges.last().1 == b {
        Some(edges.len() - 1)
    } else {
        find_edge_spec(edges.drop_last(), a, b)
    }
}

/// `Graph::new`: an empty directed graph.
#[verifier::external_body]
pub(crate) fn graph_new() -> (g: Graph<GNode, Edge>)
    ensures
        lock_graph_nodes(g) == Seq::<GNodeView>::empty(),
        lock_graph_edges(g) == Seq::<(usize, usize, Option<GNodeView>)>::empty(),
{
    Graph::new()
}

/// `Graph::node_count`: the number of nodes.
#[verifier::external_body]
pub(crate) fn graph_node_count(g: &Graph<GNode, Edge>) -> (n: usize)
    ensures
        n == lock_graph_nodes(*g).len(),
{
    g.node_count()
}

/// `Graph::edge_count`: the number of edges.
#[verifier::external_body]
pub(crate) fn graph_edge_count(g: &Graph<GNode, Edge>) -> (n: usize)
    ensures
        n == lock_graph_edges(*g).len(),
{
    g.edge_count()
}

/// `Graph::add_node`: appends a node and returns its index. petgraph
/// panics when the index would reach `u32::MAX`, its end marker.
#[verifier::external_body]
pub(crate) fn graph_add_node(g: &mut Graph<GNode, Edge>, weight: GNode) -> (i: usize)
    requires
        lock_graph_nodes(*old(g)).len() < u32::MAX,
    ensures
        i == lock_graph_nodes(*old(g)).len(),
        lock_graph_nodes(*final(g)) == lock_graph_nodes(*old(g)).push(weight@),
        lock_graph_edges(*final(g)) == lock_graph_edges(*old(g)),
{
    g.add_node(weight).index()
}

/// `Graph::add_edge`: appends an edge from `a` to `b`. petgraph panics when
/// an endpoint does not exist or the edge index would reach `u32::MAX`.
#[verifier::external_body]
pub(crate) fn graph_add_edge(g: &mut Graph<GNode, Edge>, a: usize, b: usize, weight: Edge)
    requires
        a < lock_graph_nodes(*old(g)).len(),
        b < lock_graph_nodes(*old(g)).len(),
        lock_graph_nodes(*old(g)).len() < u32::MAX,
        lock_graph_edges(*old(g)).len() < u32::MAX,
    ensures
        lock_graph_nodes(*final(g)) == lock_graph_nodes(*old(g)),
        lock_graph_edges(*final(g)) == lock_graph_edges(*old(g)).push((a, b, weight@)),
{
    g.add_edge(NodeIndex::new(a), NodeIndex::new(b), weight);
}

/// `Index<NodeIndex>` on a graph: the weight of node `i`.
#[verifier::external_body]
pub(crate) fn graph_node(g: &Graph<GNode, Edge>, i: usize) -> (w: &GNode)
    requires
        i < lock_graph_nodes(*g).len(),
        lock_graph_nodes(*g).len() < u32::MAX,
    ensures
        w@ == lock_graph_nodes(*g)[i as int],
{
    &g[NodeIndex::new(i)]
}

/// `IndexMut<NodeIndex>` on a graph: the weight of node `i`, to change in
/// place; nothing else in the graph changes.
#[verifier::external_body]
pub(crate) fn graph_node_mut(g: &mut Graph<GNode, Edge>, i: usize) -> (w: &mut GNode)
    requires
        i < lock_graph_nodes(*old(g)).len(),
        lock_graph_nodes(*old(g)).len() < u32::MAX,
    ensures
        w@ == lock_graph_nodes(*old(g))[i as int],
        lock_graph_nodes(*final(g)) == lock_graph_nodes(*old(g)).update(i as int, final(w)@),
        lock_graph_edges(*final(g)) == lock_graph_edges(*old(g)),
{
    &mut g[NodeIndex::new(i)]
}

/// `Graph::neighbors_directed(n, Outgoing)`: the targets of the edges
/// leaving `n`, most recently added edge first. `NodeIndex::new` truncates
/// to `u32`, so `n` must be a node of a graph below that index limit.
#[verifier::external_body]
pub(crate) fn graph_outgoing(g: &Graph<GNode, Edge>, n: usize) -> (targets: Vec<usize>)
    requires
        n < lock_graph_nodes(*g).len(),
        lock_graph_nodes(*g).len() < u32::MAX,
    ensures
        targets@ == outgoing(lock_graph_edges(*g), n as int),
{
    g.neighbors_directed(NodeIndex::new(n), petgraph::Direction::Outgoing).map(|t| t.index()).collect()
}

/// `Graph::find_edge`: the most recently added edge from `a` to `b`.
#[verifier::external_body]
pub(crate) fn graph_find_edge(g: &Graph<GNode, Edge>, a: usize, b: usize) -> (e: Option<usize>)
    requires
        a < lock_graph_nodes(*g).len(),
        b < lock_graph_nodes(*g).len(),
        lock_graph_nodes(*g).len() < u32::MAX,
    ensures
        match e {
            Some(i) => find_edge_spec(lock_graph_edges(*g), a as int, b as int) == Some(i as int),
            None => find_edge_spec(lock_graph_edges(*g), a as int, b as int) is None,
        },
{
    g.find_edge(NodeIndex::new(a), NodeIndex::new(b)).map(|i| i.index())
}

/// `Index<EdgeIndex>` on a graph: the weight of edge `e`.
#[verifier::external_body]
pub(crate) fn graph_edge(g: &Graph<GNode, Edge>, e: usize) -> (w: &Edge)
    requires
        e < lock_graph_edges(*g).len(),
        lock_graph_edges(*g).len() < u32::MAX,
    ensures
        w@ == lock_graph_edges(*g)[e as int].2,
{
    &g[EdgeIndex::new(e)]
}

} // verus!
