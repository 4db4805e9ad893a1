//! Deadlock detection on the lock graph: every reported lock acquisition is
//! added to the graph, then a depth-first search from the acquired lock
//! looks for a cycle.

use crate::lock_graph::{
    copy_tid_blocks, find_edge_spec, graph_add_edge, graph_add_node, graph_edge, graph_edge_count, graph_find_edge,
    graph_new, graph_node, graph_node_count, graph_node_mut, graph_outgoing, lock_graph_edges,
    lock_graph_nodes, outgoing, Edge, EdgeInfo, GNode, GNodeView,
};
use crate::text::{
    bytes_eq, copy_bytes, dash, dash_literal, lemma_bytes_deep_view, lock_literal, lock_word,
    split, split_from, split_spec, write_literal, write_word,
};
use petgraph::graph::Graph;
use vstd::prelude::*;

verus! {

broadcast use lemma_bytes_deep_view;

/// Some entry of `path` takes the lock `name` for writing.
pub open spec fn is_written(path: Seq<(Seq<u8>, bool)>, name: Seq<u8>) -> bool {
    exists|j: int| 0 <= j < path.len() && path[j].0 == name && path[j].1
}

/// Every lock named on `path` is written somewhere on it.
pub open spec fn all_written(path: Seq<(Seq<u8>, bool)>) -> bool {
    forall|i: int| 0 <= i < path.len() ==> #[trigger] is_written(path, path[i].0)
}

/// Some entry of `list` is named `name`.
pub open spec fn has_name(list: Seq<(Seq<u8>, bool)>, name: Seq<u8>) -> bool {
    exists|m: int| 0 <= m < list.len() && #[trigger] list[m].0 == name
}

/// The index of the entry of `list` named `name`, if there is one.
fn find_name(list: &Vec<(Vec<u8>, bool)>, name: &[u8]) -> (res: Option<usize>)
    ensures
        match res {
            Some(k) => k < list@.len() && list.deep_view()[k as int].0 == name@,
            None => forall|m: int| 0 <= m < list@.len() ==> list.deep_view()[m].0 != name@,
        },
{
    let mut k: usize = 0;
    while k < list.len()
        invariant
            k <= list@.len(),
            forall|m: int| 0 <= m < k ==> list.deep_view()[m].0 != name@,
        decreases list@.len() - k,
    {
        if bytes_eq(list[k].0.as_slice(), name) {
            return Some(k);
        }
        k = k + 1;
    }
    None
}

/// Whether a read/write cycle along `path` can deadlock: every lock on it
/// is taken for writing at least once.
pub fn check(path: &Vec<(Vec<u8>, bool)>) -> (res: bool)
    ensures
        res == all_written(path.deep_view()),
{
    let ghost p = path.deep_view();
    let mut rw_list: Vec<(Vec<u8>, bool)> = Vec::new();
    let mut i: usize = 0;
    while i < path.len()
        invariant
            i <= p.len(),
            p == path.deep_view(),
            forall|a: int, b: int|
                0 <= a < b < rw_list@.len() ==> rw_list.deep_view()[a].0 != rw_list.deep_view()[b].0,
            forall|m: int|
                0 <= m < rw_list@.len() ==> exists|j: int|
                    0 <= j < i && p[j].0 == #[trigger] rw_list.deep_view()[m].0,
            forall|j: int| 0 <= j < i ==> has_name(rw_list.deep_view(), #[trigger] p[j].0),
            forall|m: int|
                0 <= m < rw_list@.len() ==> (#[trigger] rw_list.deep_view()[m].1 <==> exists|j: int|
                    0 <= j < i && p[j].0 == rw_list.deep_view()[m].0 && p[j].1),
        decreases p.len() - i,
    {
        let ghost before = rw_list.deep_view();
        let found_at = find_name(&rw_list, path[i].0.as_slice());
        let found = found_at.is_some();
        match found_at {
            Some(k) => {
                if !rw_list[k].1 && path[i].1 {
                    let name = copy_bytes(&rw_list[k].0);
                    rw_list.set(k, (name, true));
                }
                proof {
                    assert forall|m: int| 0 <= m < rw_list@.len() implies (
                    #[trigger] rw_list.deep_view()[m]).0 == before[m].0 && (m != k
                        ==> rw_list.deep_view()[m].1 == before[m].1) && (m == k
                        ==> rw_list.deep_view()[m].1 == (before[m].1 || p[i as int].1)) by {}
                }
            },
            None => {
                let entry = (copy_bytes(&path[i].0), path[i].1);
                rw_list.push(entry);
                assert(rw_list.deep_view() =~= before.push(p[i as int]));
            },
        }
        let ghost k: int = match found_at { Some(k) => k as int, None => 0 };
        proof {
            let now = rw_list.deep_view();
            assert forall|m: int|
                0 <= m < now.len() implies exists|j: int|
                    0 <= j < i + 1 && p[j].0 == #[trigger] now[m].0 by {
                if m < before.len() {
                    let j = choose|j: int| 0 <= j < i && p[j].0 == before[m].0;
                    assert(p[j].0 == now[m].0);
                } else {
                    assert(p[i as int].0 == now[m].0);
                }
            }
            assert forall|j: int| 0 <= j < i + 1 implies has_name(now, #[trigger] p[j].0) by {
                if j < i {
                    assert(has_name(before, p[j].0));
                    let m = choose|m: int| 0 <= m < before.len() && #[trigger] before[m].0 == p[j].0;
                    assert(now[m].0 == p[j].0);
                } else if found {
                    assert(now[k as int].0 == p[j].0);
                } else {
                    assert(now[before.len() as int].0 == p[j].0);
                }
            }
            assert forall|m: int|
                0 <= m < now.len() implies (#[trigger] now[m].1 <==> exists|j: int|
                    0 <= j < i + 1 && p[j].0 == now[m].0 && p[j].1) by {
                if m < before.len() {
                    if now[m].1 && !(exists|j: int| 0 <= j < i && p[j].0 == now[m].0 && p[j].1) {
                        assert(p[i as int].0 == now[m].0 && p[i as int].1);
                    }
                    if exists|j: int| 0 <= j < i + 1 && p[j].0 == now[m].0 && p[j].1 {
                        let j = choose|j: int| 0 <= j < i + 1 && p[j].0 == now[m].0 && p[j].1;
                        if j < i {
                            assert(before[m].1);
                        }
                    }
                } else {
                    if exists|j: int| 0 <= j < i + 1 && p[j].0 == now[m].0 && p[j].1 {
                        let j = choose|j: int| 0 <= j < i + 1 && p[j].0 == now[m].0 && p[j].1;
                        if j < i {
                            assert(has_name(before, p[j].0));
                        }
                    }
                }
            }
        }
        i = i + 1;
    }
    let mut ret_val = true;
    let mut k: usize = 0;
    while k < rw_list.len()
        invariant
            k <= rw_list@.len(),
            ret_val <==> forall|m: int| 0 <= m < k ==> #[trigger] rw_list.deep_view()[m].1,
        decreases rw_list@.len() - k,
    {
        assert(rw_list.deep_view()[k as int].1 == rw_list@[k as int].1);
        if !rw_list[k].1 {
            ret_val = false;
        }
        k = k + 1;
    }
    proof {
        let l = rw_list.deep_view();
        assert(i == p.len());
        if ret_val {
            assert forall|a: int| 0 <= a < p.len() implies #[trigger] is_written(p, p[a].0) by {
                assert(has_name(l, p[a].0));
                let m = choose|m: int| 0 <= m < l.len() && #[trigger] l[m].0 == p[a].0;
                assert(l[m].1);
                let j = choose|j: int| 0 <= j < i && p[j].0 == l[m].0 && p[j].1;
                assert(p[j].0 == p[a].0 && p[j].1);
            }
            assert(all_written(p));
        } else {
            let m = choose|m: int| 0 <= m < l.len() && !#[trigger] l[m].1;
            let j = choose|j: int| 0 <= j < i && p[j].0 == l[m].0;
            if all_written(p) {
                assert(is_written(p, p[j].0));
                let j2 = choose|j2: int| 0 <= j2 < p.len() && p[j2].0 == p[j].0 && p[j2].1;
                assert(p[j2].0 == l[m].0 && p[j2].1);
                assert(l[m].1);
            }
        }
    }
    ret_val
}

/// `x` is a prefix of `y`, piece by piece.
pub open spec fn is_seq_prefix(x: Seq<Seq<u8>>, y: Seq<Seq<u8>>) -> bool {
    x.len() <= y.len() && forall|i: int| 0 <= i < x.len() ==> x[i] == y[i]
}

/// Two block ids are nested: the `-`-separated pieces of one are a prefix
/// of those of the other, so one block encloses the other.
pub open spec fn blocks_nested(a: Seq<u8>, b: Seq<u8>) -> bool {
    let x = split_spec(a, dash());
    let y = split_spec(b, dash());
    is_seq_prefix(x, y) || is_seq_prefix(y, x)
}

/// The block of `t` is nested with the block of some entry of `list`.
pub open spec fn block_related(t: (i32, Seq<u8>), list: Seq<(i32, Seq<u8>)>) -> bool {
    exists|k: int| 0 <= k < list.len() && blocks_nested(t.1, #[trigger] list[k].1)
}

/// The thread of `t` is the thread of some entry of `list`.
pub open spec fn tid_related(t: (i32, Seq<u8>), list: Seq<(i32, Seq<u8>)>) -> bool {
    exists|k: int| 0 <= k < list.len() && #[trigger] list[k].0 == t.0
}

/// Splitting always yields at least one piece.
pub proof fn lemma_split_nonempty(s: Seq<u8>, sep: Seq<u8>)
    requires
        sep.len() > 0,
    ensures
        split_spec(s, sep).len() >= 1,
{
    reveal_with_fuel(split_from, 1);
}

/// Whether the non-empty `x` is a prefix of `y`, piece by piece.
fn pieces_prefix(x: &Vec<Vec<u8>>, y: &Vec<Vec<u8>>) -> (res: bool)
    requires
        x@.len() <= y@.len(),
    ensures
        res == (x@.len() > 0 && is_seq_prefix(x.deep_view(), y.deep_view())),
{
    let mut i: usize = 0;
    while i < x.len()
        invariant
            x@.len() <= y@.len(),
            i <= x@.len(),
            x@.len() > 0 ==> i < x@.len(),
            forall|j: int| 0 <= j < i ==> x.deep_view()[j] == y.deep_view()[j],
        decreases x@.len() - i,
    {
        assert(x.deep_view()[i as int] == x@[i as int]@ && y.deep_view()[i as int] == y@[i as int]@);
        if !bytes_eq(x[i].as_slice(), y[i].as_slice()) {
            return false;
        }
        if i == x.len() - 1 {
            return true;
        }
        i = i + 1;
    }
    false
}

/// Whether the block of `gnode` is nested with the block of any entry of
/// `graph_node`.
pub fn compare_block(gnode: &(i32, Vec<u8>), graph_node: &Vec<(i32, Vec<u8>)>) -> (res: bool)
    ensures
        res == block_related(gnode.deep_view(), graph_node.deep_view()),
{
    let sep = dash_literal();
    let gnode_block = split(gnode.1.as_slice(), sep.as_slice());
    proof {
        lemma_split_nonempty(gnode.1@, dash());
    }
    let mut k: usize = 0;
    while k < graph_node.len()
        invariant
            sep@ == dash(),
            gnode_block.deep_view() == split_spec(gnode.1@, dash()),
            gnode_block@.len() >= 1,
            k <= graph_node@.len(),
            forall|j: int|
                0 <= j < k ==> !blocks_nested(gnode.1@, #[trigger] graph_node.deep_view()[j].1),
        decreases graph_node@.len() - k,
    {
        let graph_block = split(graph_node[k].1.as_slice(), sep.as_slice());
        proof {
            lemma_split_nonempty(graph_node[k as int].1@, dash());
            assert(graph_node.deep_view()[k as int].1 == graph_node@[k as int].1@);
        }
        if gnode_block.len() <= graph_block.len() {
            if pieces_prefix(&gnode_block, &graph_block) {
                return true;
            }
        } else {
            if pieces_prefix(&graph_block, &gnode_block) {
                return true;
            }
        }
        k = k + 1;
    }
    false
}

/// Whether the thread of `gnode` has an entry in `graph_node`.
pub fn compare_tid(gnode: &(i32, Vec<u8>), graph_node: &Vec<(i32, Vec<u8>)>) -> (res: bool)
    ensures
        res == tid_related(gnode.deep_view(), graph_node.deep_view()),
{
    let gnode_tid = gnode.0;
    let mut k: usize = 0;
    while k < graph_node.len()
        invariant
            gnode_tid == gnode.0,
            k <= graph_node@.len(),
            forall|j: int| 0 <= j < k ==> #[trigger] graph_node.deep_view()[j].0 != gnode_tid,
        decreases graph_node@.len() - k,
    {
        let graph_tid = graph_node[k].0;
        assert(graph_node.deep_view()[k as int].0 == graph_tid);
        if gnode_tid == graph_tid {
            return true;
        }
        k = k + 1;
    }
    false
}

/// Whether `tid_vec` holds exactly the pair `gnode_vec`.
pub fn tid_vec_find(tid_vec: &Vec<(i32, Vec<u8>)>, gnode_vec: &(i32, Vec<u8>)) -> (res: bool)
    ensures
        res == tid_vec.deep_view().contains(gnode_vec.deep_view()),
{
    let mut k: usize = 0;
    while k < tid_vec.len()
        invariant
            k <= tid_vec@.len(),
            forall|j: int| 0 <= j < k ==> tid_vec.deep_view()[j] != gnode_vec.deep_view(),
        decreases tid_vec@.len() - k,
    {
        assert(tid_vec.deep_view()[k as int] == (tid_vec@[k as int].0, tid_vec@[k as int].1@));
        if tid_vec[k].0 == gnode_vec.0 && bytes_eq(tid_vec[k].1.as_slice(), gnode_vec.1.as_slice()) {
            assert(tid_vec.deep_view()[k as int] == gnode_vec.deep_view());
            return true;
        }
        k = k + 1;
    }
    false
}

/// A lock acquisition found by the source analysis.
#[derive(Debug)]
pub struct LockEvent {
    /// The thread that acquires the lock.
    pub tid: i32,
    /// The expression that names the lock.
    pub lock_name: Vec<u8>,
    /// The block in which the lock is acquired.
    pub block: Vec<u8>,
    /// The primitive: `lock`, `read` or `write`.
    pub primitive: Vec<u8>,
    /// The file of the acquisition.
    pub file_name: Vec<u8>,
    /// The line of the acquisition.
    pub line_num: usize,
}

/// The value of a [`LockEvent`].
pub struct LockEventView {
    pub tid: i32,
    pub lock_name: Seq<u8>,
    pub block: Seq<u8>,
    pub primitive: Seq<u8>,
    pub file_name: Seq<u8>,
    pub line_num: usize,
}

impl View for LockEvent {
    type V = LockEventView;

    open spec fn view(&self) -> LockEventView {
        LockEventView {
            tid: self.tid,
            lock_name: self.lock_name@,
            block: self.block@,
            primitive: self.primitive@,
            file_name: self.file_name@,
            line_num: self.line_num,
        }
    }
}

/// The values of a list of acquisitions.
pub open spec fn events_view(v: Seq<LockEvent>) -> Seq<LockEventView> {
    v.map_values(|e: LockEvent| e@)
}

/// The node that an acquisition adds to, or merges into, the graph.
pub open spec fn event_node(e: LockEvent) -> GNodeView {
    GNodeView {
        lock_name: e.lock_name@,
        tid_block: seq![(e.tid, e.block@)],
        primitive: seq![e.primitive@],
        visit: 0,
        file_name: e.file_name@,
        line_num: e.line_num,
    }
}

/// A deadlock found by the search.
#[derive(Debug)]
pub enum DeadlockReport {
    /// A mutex is reached again while it is held on the search path; the
    /// positions are the acquisitions along that path.
    LockCycle { lock_name: Vec<u8>, positions: Vec<(Vec<u8>, usize)> },
    /// A read/write lock is reached again along a path on which every lock
    /// is taken for writing.
    RwCycle { lock_name: Vec<u8> },
}

/// The mathematical value of a [`DeadlockReport`].
pub enum ReportView {
    LockCycle { lock_name: Seq<u8>, positions: Seq<(Seq<u8>, usize)> },
    RwCycle { lock_name: Seq<u8> },
}

impl View for DeadlockReport {
    type V = ReportView;

    open spec fn view(&self) -> ReportView {
        match self {
            DeadlockReport::LockCycle { lock_name, positions } => ReportView::LockCycle {
                lock_name: lock_name@,
                positions: positions.deep_view(),
            },
            DeadlockReport::RwCycle { lock_name } => ReportView::RwCycle { lock_name: lock_name@ },
        }
    }
}

/// The values of a list of reports.
pub open spec fn reports_view(r: Seq<DeadlockReport>) -> Seq<ReportView> {
    r.map_values(|x: DeadlockReport| x@)
}

/// A node the detector can work on: it has an acquisition and a
/// primitive, and its search mark is 0 or 1.
pub open spec fn node_ok(v: GNodeView) -> bool {
    v.tid_block.len() > 0 && v.primitive.len() > 0 && (v.visit == 0 || v.visit == 1)
}

/// The graph invariant: indices fit petgraph's `u32` index type, every
/// node is usable, edges join existing nodes, and every node carried by
/// an edge has a primitive.
pub open spec fn graph_wf(
    nodes: Seq<GNodeView>,
    edges: Seq<(usize, usize, Option<GNodeView>)>,
) -> bool {
    &&& nodes.len() < u32::MAX
    &&& edges.len() < u32::MAX
    &&& forall|i: int| 0 <= i < nodes.len() ==> node_ok(#[trigger] nodes[i])
    &&& forall|e: int|
        0 <= e < edges.len() ==> {
            &&& (#[trigger] edges[e]).0 < nodes.len()
            &&& edges[e].1 < nodes.len()
            &&& (edges[e].2 matches Some(g) ==> g.primitive.len() > 0)
        }
}

/// No two nodes name the same lock.
pub open spec fn names_unique(nodes: Seq<GNodeView>) -> bool {
    forall|i: int, j: int|
        0 <= i < nodes.len() && 0 <= j < nodes.len() && i != j ==> #[trigger] nodes[i].lock_name
            != #[trigger] nodes[j].lock_name
}

/// The last node below index `i` that names the lock `name`.
pub open spec fn last_named_below(nodes: Seq<GNodeView>, name: Seq<u8>, i: int) -> Option<int>
    decreases i,
{
    if i <= 0 {
        None
    } else if nodes[i - 1].lock_name == name {
        Some(i - 1)
    } else {
        last_named_below(nodes, name, i - 1)
    }
}

/// The first node in `k..upto` whose acquisitions hold a block nested with
/// the block of `tb`.
pub open spec fn first_related_from(nodes: Seq<GNodeView>, tb: (i32, Seq<u8>), k: int, upto: int) -> Option<int>
    decreases upto - k,
{
    if k < 0 || k >= upto {
        None
    } else if block_related(tb, nodes[k].tid_block) {
        Some(k)
    } else {
        first_related_from(nodes, tb, k + 1, upto)
    }
}

/// The result of adding an acquisition to the graph.
pub struct AddOut {
    pub nodes: Seq<GNodeView>,
    pub edges: Seq<(usize, usize, Option<GNodeView>)>,
    pub index: int,
}

/// The weight of the edges that the acquisition `g` creates.
pub open spec fn edge_weight_for(g: GNodeView) -> Option<GNodeView> {
    if g.primitive[0] == lock_word() {
        None
    } else {
        Some(g)
    }
}

/// Adds an edge into `target` from the first node before `upto` that is
/// related to `tb`, if there is one.
pub open spec fn link_spec(
    nodes: Seq<GNodeView>,
    edges: Seq<(usize, usize, Option<GNodeView>)>,
    tb: (i32, Seq<u8>),
    upto: int,
    target: int,
    g: GNodeView,
) -> Seq<(usize, usize, Option<GNodeView>)> {
    match first_related_from(nodes, tb, 0, upto) {
        Some(k) => edges.push((k as usize, target as usize, edge_weight_for(g))),
        None => edges,
    }
}

/// How an acquisition `g` changes the graph, and the node it lands on.
///
/// A lock seen before (the last node with its name) gets a self edge when
/// the acquisition's block is nested with one of its own; otherwise it
/// gets an edge from the first node whose block is nested, and records the
/// acquisition. A new lock becomes a new node, with an edge from the first
/// earlier node whose block is nested.
pub open spec fn add_to_graph_spec(
    nodes: Seq<GNodeView>,
    edges: Seq<(usize, usize, Option<GNodeView>)>,
    g: GNodeView,
) -> AddOut {
    let tb = g.tid_block[0];
    let prim = g.primitive[0];
    match last_named_below(nodes, g.lock_name, nodes.len() as int) {
        Some(ex) => {
            let old_node = nodes[ex];
            if block_related(tb, old_node.tid_block) {
                let nodes2 = if prim == lock_word() {
                    nodes
                } else {
                    nodes.update(ex, GNodeView { primitive: old_node.primitive.push(prim), ..old_node })
                };
                AddOut {
                    nodes: nodes2,
                    edges: edges.push((ex as usize, ex as usize, edge_weight_for(g))),
                    index: ex,
                }
            } else {
                AddOut {
                    nodes: nodes.update(
                        ex,
                        GNodeView {
                            tid_block: old_node.tid_block.push(tb),
                            primitive: old_node.primitive.push(prim),
                            ..old_node
                        },
                    ),
                    edges: link_spec(nodes, edges, tb, nodes.len() as int, ex, g),
                    index: ex,
                }
            }
        },
        None => AddOut {
            nodes: nodes.push(g),
            edges: link_spec(nodes, edges, tb, nodes.len() as int, nodes.len() as int, g),
            index: nodes.len() as int,
        },
    }
}

/// The lock graph and the deadlock search over it.
pub struct GraphMaker {
    graph: Graph<GNode, Edge>,
}

impl GraphMaker {
    /// The nodes of the graph.
    pub closed spec fn nodes(&self) -> Seq<GNodeView> {
        lock_graph_nodes(self.graph)
    }

    /// The edges of the graph, in the order they were added.
    pub closed spec fn edges(&self) -> Seq<(usize, usize, Option<GNodeView>)> {
        lock_graph_edges(self.graph)
    }

    /// The graph invariant.
    pub open spec fn wf(&self) -> bool {
        graph_wf(self.nodes(), self.edges())
    }

    /// An empty lock graph.
    pub fn new() -> (res: GraphMaker)
        ensures
            res.wf(),
            res.nodes() == Seq::<GNodeView>::empty(),
            res.edges() == Seq::<(usize, usize, Option<GNodeView>)>::empty(),
    {
        GraphMaker { graph: graph_new() }
    }

    /// The number of locks in the graph.
    pub fn node_count(&self) -> (n: usize)
        ensures
            n == self.nodes().len(),
    {
        graph_node_count(&self.graph)
    }

    /// The number of lock-order edges in the graph.
    pub fn edge_count(&self) -> (n: usize)
        ensures
            n == self.edges().len(),
    {
        graph_edge_count(&self.graph)
    }

    /// The node of lock `i`.
    pub fn node(&self, i: usize) -> (w: &GNode)
        requires
            self.wf(),
            i < self.nodes().len(),
        ensures
            w@ == self.nodes()[i as int],
    {
        graph_node(&self.graph, i)
    }

    /// The last node that names the lock `name`.
    fn find_same(&self, name: &Vec<u8>) -> (res: Option<usize>)
        requires
            self.wf(),
        ensures
            match res {
                Some(i) => last_named_below(self.nodes(), name@, self.nodes().len() as int) == Some(
                    i as int,
                ),
                None => last_named_below(self.nodes(), name@, self.nodes().len() as int) is None,
            },
    {
        let mut i = graph_node_count(&self.graph);
        while i > 0
            invariant
                self.wf(),
                i <= self.nodes().len(),
                last_named_below(self.nodes(), name@, self.nodes().len() as int)
                    == last_named_below(self.nodes(), name@, i as int),
            decreases i,
        {
            i = i - 1;
            if bytes_eq(graph_node(&self.graph, i).lock_name.as_slice(), name.as_slice()) {
                return Some(i);
            }
        }
        None
    }

    /// Adds an edge into `target` from the first node before `upto` whose
    /// acquisitions hold a block nested with that of `tup`.
    fn link_from_related(&mut self, upto: usize, target: usize, tup: &(i32, Vec<u8>), gnode: GNode)
        requires
            old(self).wf(),
            upto <= old(self).nodes().len(),
            target < old(self).nodes().len(),
            old(self).edges().len() + 1 < u32::MAX,
            gnode@.primitive.len() > 0,
        ensures
            final(self).nodes() == old(self).nodes(),
            final(self).edges() == link_spec(
                old(self).nodes(),
                old(self).edges(),
                tup.deep_view(),
                upto as int,
                target as int,
                gnode@,
            ),
            final(self).wf(),
    {
        let ghost nodes0 = self.nodes();
        let mut element: usize = 0;
        while element < upto
            invariant
                self.wf(),
                self.nodes() == nodes0,
                nodes0 == old(self).nodes(),
                self.edges() == old(self).edges(),
                upto <= nodes0.len(),
                target < nodes0.len(),
                old(self).edges().len() + 1 < u32::MAX,
                gnode@.primitive.len() > 0,
                element <= upto,
                first_related_from(nodes0, tup.deep_view(), 0, upto as int) == first_related_from(
                    nodes0,
                    tup.deep_view(),
                    element as int,
                    upto as int,
                ),
            decreases upto - element,
        {
            if compare_block(tup, &graph_node(&self.graph, element).tid_block) {
                let lock = lock_literal();
                let weight = if bytes_eq(gnode.primitive[0].as_slice(), lock.as_slice()) {
                    Edge { rw: EdgeInfo::Plain }
                } else {
                    Edge { rw: EdgeInfo::LockInfo(gnode) }
                };
                graph_add_edge(&mut self.graph, element, target, weight);
                return ;
            }
            element = element + 1;
        }
    }

    /// Merges a new acquisition into the existing node of its lock: links
    /// it from the first related node and records its block and primitive.
    fn join_existing(&mut self, existing: usize, gnode: GNode)
        requires
            old(self).wf(),
            existing < old(self).nodes().len(),
            old(self).edges().len() + 1 < u32::MAX,
            gnode@.primitive.len() > 0,
            gnode@.tid_block.len() > 0,
        ensures
            final(self).wf(),
            final(self).nodes() == old(self).nodes().update(
                existing as int,
                GNodeView {
                    tid_block: old(self).nodes()[existing as int].tid_block.push(gnode@.tid_block[0]),
                    primitive: old(self).nodes()[existing as int].primitive.push(gnode@.primitive[0]),
                    ..old(self).nodes()[existing as int]
                },
            ),
            final(self).edges() == link_spec(
                old(self).nodes(),
                old(self).edges(),
                gnode@.tid_block[0],
                old(self).nodes().len() as int,
                existing as int,
                gnode@,
            ),
    {
        let gnode_tup = (gnode.tid_block[0].0, copy_bytes(&gnode.tid_block[0].1));
        let gnode_prim = copy_bytes(&gnode.primitive[0]);
        assert(gnode_tup.deep_view() == gnode@.tid_block[0]);
        let count = graph_node_count(&self.graph);
        self.link_from_related(count, existing, &gnode_tup, gnode);
        let ghost mid = self.nodes();
        let w = graph_node_mut(&mut self.graph, existing);
        w.tid_block.push(gnode_tup);
        w.primitive.push(gnode_prim);
        proof {
            let nv = self.nodes()[existing as int];
            assert(nv.tid_block =~= mid[existing as int].tid_block.push(gnode@.tid_block[0]));
            assert(nv.primitive =~= mid[existing as int].primitive.push(gnode@.primitive[0]));
            assert(self.nodes() =~= old(self).nodes().update(
                existing as int,
                GNodeView {
                    tid_block: old(self).nodes()[existing as int].tid_block.push(gnode@.tid_block[0]),
                    primitive: old(self).nodes()[existing as int].primitive.push(gnode@.primitive[0]),
                    ..old(self).nodes()[existing as int]
                },
            ));
        }
    }

    /// Adds the acquisition `gnode` to the graph (see
    /// [`add_to_graph_spec`]) and returns the node it landed on.
    pub fn add_to_graph(&mut self, gnode: GNode) -> (idx: usize)
        requires
            old(self).wf(),
            old(self).nodes().len() + 1 < u32::MAX,
            old(self).edges().len() + 1 < u32::MAX,
            node_ok(gnode@),
        ensures
            ({
                let out = add_to_graph_spec(old(self).nodes(), old(self).edges(), gnode@);
                &&& final(self).nodes() == out.nodes
                &&& final(self).edges() == out.edges
                &&& idx == out.index
            }),
            final(self).wf(),
            idx < final(self).nodes().len(),
            final(self).nodes()[idx as int].lock_name == gnode@.lock_name,
            names_unique(old(self).nodes()) ==> names_unique(final(self).nodes()),
            old(self).edges().len() <= final(self).edges().len() <= old(self).edges().len() + 1,
            final(self).edges().subrange(0, old(self).edges().len() as int) == old(self).edges(),
            forall|i: int|
                0 <= i < old(self).nodes().len() && i != idx ==> #[trigger] final(self).nodes()[i] == old(
                    self,
                ).nodes()[i],
            forall|i: int|
                0 <= i < old(self).nodes().len() ==> #[trigger] final(self).nodes()[i].visit == old(
                    self,
                ).nodes()[i].visit,
    {
        proof {
            law_acquisition_lands_on_its_lock(self.nodes(), self.edges(), gnode@);
            if names_unique(self.nodes()) {
                lemma_add_keeps_names_unique(self.nodes(), self.edges(), gnode@);
            }
        }
        let ghost g = gnode@;
        let same_node = self.find_same(&gnode.lock_name);
        let gnode_tup = (gnode.tid_block[0].0, copy_bytes(&gnode.tid_block[0].1));
        assert(gnode_tup.deep_view() == g.tid_block[0]);
        match same_node {
            Some(existing) => {
                proof {
                    lemma_last_named_in_range(self.nodes(), g.lock_name, self.nodes().len() as int);
                }
                if compare_block(&gnode_tup, &graph_node(&self.graph, existing).tid_block) {
                    let lock = lock_literal();
                    if bytes_eq(gnode.primitive[0].as_slice(), lock.as_slice()) {
                        graph_add_edge(
                            &mut self.graph,
                            existing,
                            existing,
                            Edge { rw: EdgeInfo::Plain },
                        );
                    } else {
                        let gnode_prim = copy_bytes(&gnode.primitive[0]);
                        graph_add_edge(
                            &mut self.graph,
                            existing,
                            existing,
                            Edge { rw: EdgeInfo::LockInfo(gnode) },
                        );
                        let ghost mid = self.nodes();
                        let w = graph_node_mut(&mut self.graph, existing);
                        w.primitive.push(gnode_prim);
                        proof {
                            assert(self.nodes()[existing as int].primitive =~= mid[existing as int].primitive.push(
                                g.primitive[0],
                            ));
                            assert(self.nodes() =~= old(self).nodes().update(
                                existing as int,
                                GNodeView {
                                    primitive: old(self).nodes()[existing as int].primitive.push(
                                        g.primitive[0],
                                    ),
                                    ..old(self).nodes()[existing as int]
                                },
                            ));
                        }
                    }
                } else if compare_tid(&gnode_tup, &graph_node(&self.graph, existing).tid_block) {
                    self.join_existing(existing, gnode);
                } else {
                    self.join_existing(existing, gnode);
                }
                existing
            },
            None => {
                let count = graph_node_count(&self.graph);
                let copy = gnode.clone();
                let added_node = graph_add_node(&mut self.graph, copy);
                self.link_from_related(count, added_node, &gnode_tup, gnode);
                proof {
                    let n0 = old(self).nodes();
                    assert forall|k: int| 0 <= k < count implies #[trigger] self.nodes()[k] == n0[k] by {}
                    lemma_first_related_prefix(n0, self.nodes(), g.tid_block[0], 0, count as int);
                }
                added_node
            },
        }
    }

    /// The depth-first search from node `n` (see [`dfs_spec`]): pushes every
    /// deadlock it finds onto `reports` and returns whether the last search
    /// it made, or the one that stopped it, found one.
    pub fn dfs(
        &mut self,
        n: usize,
        path: Vec<(Vec<u8>, bool)>,
        lock_position: Vec<(Vec<u8>, usize)>,
        reports: &mut Vec<DeadlockReport>,
        Ghost(fuel): Ghost<nat>,
    ) -> (res: bool)
        requires
            old(self).wf(),
            n < old(self).nodes().len(),
            fuel > zero_count(with_visit(old(self).nodes(), n as int, 1)),
        ensures
            ({
                let out = dfs_spec(
                    old(self).edges(),
                    old(self).nodes(),
                    n as int,
                    path.deep_view(),
                    lock_position.deep_view(),
                    fuel,
                );
                &&& final(self).nodes() == out.nodes
                &&& res == out.result
                &&& reports_view(final(reports)@) == reports_view(old(reports)@) + out.reports
            }),
            final(self).wf(),
            final(self).edges() == old(self).edges(),
            same_but_visits(old(self).nodes(), final(self).nodes()),
            unmarked_within(old(self).nodes(), final(self).nodes(), n as int),
            reports_view(final(reports)@).len() == reports_view(old(reports)@).len() ==> !res
                && final(self).nodes() == with_visit(old(self).nodes(), n as int, 0),
        decreases fuel,
    {
        let ghost edges0 = self.edges();
        let ghost nodes0 = self.nodes();
        let ghost reports0 = reports_view(reports@);
        let ghost p_in = path.deep_view();
        let ghost l_in = lock_position.deep_view();
        let mut cur_path = path;
        let mut positions = lock_position;
        {
            let cur = graph_node_mut(&mut self.graph, n);
            cur.visit = 1;
        }
        let ghost nodes1 = self.nodes();
        assert(nodes1 =~= with_visit(nodes0, n as int, 1));
        proof {
            lemma_with_visit_same(nodes0, n as int, 1);
        }
        let lock = lock_literal();
        let write = write_literal();
        let cur = graph_node(&self.graph, n);
        assert(node_ok(nodes1[n as int]));
        let ghost cv = nodes1[n as int];
        if !bytes_eq(cur.primitive[0].as_slice(), lock.as_slice()) {
            let ghost p0 = cur_path.deep_view();
            let mut i: usize = 0;
            while i < cur.primitive.len()
                invariant
                    cur@ == cv,
                    write@ == write_word(),
                    i <= cv.primitive.len(),
                    cur_path.deep_view() == p0 + primitive_entries(cv).take(i as int),
                decreases cv.primitive.len() - i,
            {
                assert(cv.primitive[i as int] == cur.primitive@[i as int]@);
                assert(cv.lock_name == cur.lock_name@);
                let is_write = bytes_eq(cur.primitive[i].as_slice(), write.as_slice());
                let ghost before = cur_path.deep_view();
                cur_path.push((copy_bytes(&cur.lock_name), is_write));
                assert(cur_path.deep_view() =~= before.push((cv.lock_name, cv.primitive[i as int] == write_word())));
                assert(cur_path.deep_view() =~= p0 + primitive_entries(cv).take(i + 1));
                i = i + 1;
            }
            assert(primitive_entries(cv).take(i as int) =~= primitive_entries(cv));
        }
        let file_name = copy_bytes(&cur.file_name);
        let line_num = cur.line_num;
        if !contains_position(&positions, &file_name, line_num) {
            let ghost before = positions.deep_view();
            positions.push((file_name, line_num));
            assert(positions.deep_view() =~= before.push((cv.file_name, cv.line_num)));
        }
        let ghost p1 = cur_path.deep_view();
        let ghost l1 = positions.deep_view();
        assert(p1 == entry_path(nodes0[n as int], p_in));
        assert(l1 == entry_positions(nodes0[n as int], l_in));
        let mut ret_val = false;
        let nodes = graph_outgoing(&self.graph, n);
        let ghost total = dfs_loop(edges0, nodes1, n as int, p1, l1, 0, false, fuel);
        let ghost mut acc: Seq<ReportView> = seq![];
        let mut k: usize = 0;
        while k < nodes.len()
            invariant
                self.wf(),
                self.edges() == edges0,
                edges0 == old(self).edges(),
                nodes0 == old(self).nodes(),
                reports0 == reports_view(old(reports)@),
                p_in == path.deep_view(),
                l_in == lock_position.deep_view(),
                n < nodes1.len(),
                nodes1 == with_visit(nodes0, n as int, 1),
                graph_wf(nodes1, edges0),
                fuel > zero_count(nodes1),
                nodes@ == outgoing(edges0, n as int),
                k <= nodes@.len(),
                lock@ == lock_word(),
                write@ == write_word(),
                p1 == entry_path(nodes0[n as int], p_in),
                l1 == entry_positions(nodes0[n as int], l_in),
                total == dfs_loop(edges0, nodes1, n as int, p1, l1, 0, false, fuel),
                cur_path.deep_view() == p1,
                positions.deep_view() == l1,
                same_but_visits(nodes1, self.nodes()),
                same_but_visits(nodes0, self.nodes()),
                self.nodes()[n as int].visit == 1,
                acc.len() == 0 ==> self.nodes() == nodes1 && !ret_val,
                forall|v: int| 0 <= v < nodes1.len() && #[trigger] self.nodes()[v].visit == 0 ==> nodes1[v].visit == 0,
                reports_view(reports@) == reports0 + acc,
                ({
                    let rest = dfs_loop(edges0, self.nodes(), n as int, p1, l1, k as int, ret_val, fuel);
                    &&& total.early == rest.early
                    &&& total.result == rest.result
                    &&& total.nodes == rest.nodes
                    &&& total.reports == acc + rest.reports
                }),
            decreases nodes@.len() - k,
        {
            let node = nodes[k];
            proof {
                lemma_outgoing_has_edge(edges0, n as int, k as int);
                let e = choose|e: int| 0 <= e < edges0.len() && edges0[e].0 == n && edges0[e].1 == outgoing(edges0, n as int)[k as int];
                assert(edges0[e].1 < nodes1.len());
            }
            let ghost now = self.nodes();
            let ghost mv = now[node as int];
            assert(node_ok(mv));
            let m = graph_node(&self.graph, node);
            let lock_name = copy_bytes(&m.lock_name);
            let cur_visit = m.visit;
            assert(mv.primitive[0] == m.primitive@[0]@);
            let is_lock = bytes_eq(m.primitive[0].as_slice(), lock.as_slice());
            if is_lock {
                if cur_visit == 1 {
                    let ghost before = reports@;
                    let positions = clone_positions(&positions);
                    let report = DeadlockReport::LockCycle { lock_name, positions };
                    reports.push(report);
                    assert(reports_view(reports@) =~= reports_view(before).push(ReportView::LockCycle { lock_name: mv.lock_name, positions: l1 }));
                    proof {
                        let rest = dfs_loop(edges0, now, n as int, p1, l1, k as int, ret_val, fuel);
                        assert(rest.early && rest.nodes == now);
                        assert(rest.reports == seq![ReportView::LockCycle { lock_name: mv.lock_name, positions: l1 }]);
                        assert(dfs_spec(edges0, nodes0, n as int, p_in, l_in, fuel) == total);
                        assert(reports_view(reports@) =~= reports0 + total.reports);
                    }
                    return true;
                } else if cur_visit == 0 {
                    proof {
                        lemma_zero_count_le(nodes1, with_visit(now, node as int, 1), node as int);
                    }
                    let sub_path = clone_path(&cur_path);
                    let ghost d = dfs_spec(edges0, now, node as int, p1, l1, (fuel - 1) as nat);
                    ret_val = self.dfs(node, sub_path, clone_positions(&positions), reports, Ghost((fuel - 1) as nat));
                    proof {
                        if acc.len() == 0 && d.reports.len() == 0 {
                            assert(with_visit(now, node as int, 0) =~= now);
                        }
                        acc = acc + d.reports;
                        lemma_same_but_visits_trans(nodes1, now, self.nodes());
                        lemma_same_but_visits_trans(nodes0, now, self.nodes());
                    }
                }
            } else {
                proof {
                    lemma_outgoing_has_edge(edges0, n as int, k as int);
                }
                let mut arg_path = clone_path(&cur_path);
                match graph_find_edge(&self.graph, n, node) {
                    Some(edge) => {
                        match &graph_edge(&self.graph, edge).rw {
                            EdgeInfo::LockInfo(e_gnode) => {
                                assert(e_gnode@.primitive[0] == e_gnode.primitive@[0]@);
                                let is_write = bytes_eq(e_gnode.primitive[0].as_slice(), write.as_slice());
                                let ghost before = arg_path.deep_view();
                                arg_path.push((copy_bytes(&e_gnode.lock_name), is_write));
                                assert(arg_path.deep_view() =~= before.push((e_gnode@.lock_name, e_gnode@.primitive[0] == write_word())));
                            },
                            EdgeInfo::Plain => {},
                        }
                    },
                    None => {},
                }
                assert(arg_path.deep_view() == edge_path(edges0, n as int, node as int, p1));
                if cur_visit == 0 {
                    proof {
                        lemma_zero_count_le(nodes1, with_visit(now, node as int, 1), node as int);
                    }
                    let sub_path = clone_path(&arg_path);
                    let ghost d = dfs_spec(edges0, now, node as int, sub_path.deep_view(), l1, (fuel - 1) as nat);
                    ret_val = self.dfs(node, sub_path, clone_positions(&positions), reports, Ghost((fuel - 1) as nat));
                    proof {
                        if acc.len() == 0 && d.reports.len() == 0 {
                            assert(with_visit(now, node as int, 0) =~= now);
                        }
                        acc = acc + d.reports;
                        lemma_same_but_visits_trans(nodes1, now, self.nodes());
                        lemma_same_but_visits_trans(nodes0, now, self.nodes());
                    }
                } else {
                    if check(&cur_path) {
                        let ghost before = reports@;
                        reports.push(DeadlockReport::RwCycle { lock_name });
                        assert(reports_view(reports@) =~= reports_view(before).push(ReportView::RwCycle { lock_name: mv.lock_name }));
                        proof {
                            let rest = dfs_loop(edges0, now, n as int, p1, l1, k as int, ret_val, fuel);
                            assert(rest.early && rest.nodes == now);
                            assert(rest.reports == seq![ReportView::RwCycle { lock_name: mv.lock_name }]);
                            assert(dfs_spec(edges0, nodes0, n as int, p_in, l_in, fuel) == total);
                            assert(reports_view(reports@) =~= reports0 + total.reports);
                        }
                        return true;
                    }
                }
            }
            k = k + 1;
        }
        let ghost before_reset = self.nodes();
        {
            let cur = graph_node_mut(&mut self.graph, n);
            cur.visit = 0;
        }
        assert(self.nodes() =~= with_visit(before_reset, n as int, 0));
        assert(acc.len() == 0 ==> with_visit(nodes1, n as int, 0) =~= with_visit(nodes0, n as int, 0));
        ret_val
    }

    /// Adds the acquisition `gnode` to the graph and searches for a
    /// deadlock from the node it landed on.
    fn make_graph(&mut self, gnode: GNode) -> (reports: Vec<DeadlockReport>)
        requires
            old(self).wf(),
            old(self).nodes().len() + 1 < u32::MAX,
            old(self).edges().len() + 1 < u32::MAX,
            node_ok(gnode@),
        ensures
            ({
                let added = add_to_graph_spec(old(self).nodes(), old(self).edges(), gnode@);
                let out = dfs_spec(
                    added.edges,
                    added.nodes,
                    added.index,
                    seq![],
                    seq![],
                    (added.nodes.len() + 1) as nat,
                );
                &&& final(self).edges() == added.edges
                &&& final(self).nodes() == out.nodes
                &&& reports_view(reports@) == out.reports
                &&& same_but_visits(added.nodes, final(self).nodes())
                &&& (out.reports.len() == 0 ==> final(self).nodes() == with_visit(
                    added.nodes,
                    added.index,
                    0,
                ))
            }),
            final(self).wf(),
    {
        let node_index = self.add_to_graph(gnode);
        let mut reports: Vec<DeadlockReport> = Vec::new();
        let ghost fuel = (self.nodes().len() + 1) as nat;
        proof {
            lemma_zero_count_bound(with_visit(self.nodes(), node_index as int, 1));
        }
        let path: Vec<(Vec<u8>, bool)> = Vec::new();
        let positions: Vec<(Vec<u8>, usize)> = Vec::new();
        assert(path.deep_view() =~= seq![]);
        assert(positions.deep_view() =~= seq![]);
        assert(reports_view(reports@) =~= seq![]);
        self.dfs(node_index, path, positions, &mut reports, Ghost(fuel));
        reports
    }

    /// Handles one lock acquisition: adds it to the graph (see
    /// [`add_to_graph_spec`]) and returns the deadlocks that the search from
    /// its lock finds (see [`dfs_spec`]).
    pub fn receive(&mut self, event: LockEvent) -> (reports: Vec<DeadlockReport>)
        requires
            old(self).wf(),
            old(self).nodes().len() + 1 < u32::MAX,
            old(self).edges().len() + 1 < u32::MAX,
        ensures
            ({
                let added = add_to_graph_spec(old(self).nodes(), old(self).edges(), event_node(event));
                let out = dfs_spec(
                    added.edges,
                    added.nodes,
                    added.index,
                    seq![],
                    seq![],
                    (added.nodes.len() + 1) as nat,
                );
                &&& final(self).edges() == added.edges
                &&& final(self).nodes() == out.nodes
                &&& reports_view(reports@) == out.reports
                &&& (out.reports.len() == 0 ==> final(self).nodes() == with_visit(
                    added.nodes,
                    added.index,
                    0,
                ))
            }),
            final(self).wf(),
            names_unique(old(self).nodes()) ==> names_unique(final(self).nodes()),
    {
        let ghost e = event;
        let mut tid_vec: Vec<(i32, Vec<u8>)> = Vec::new();
        tid_vec.push((event.tid, event.block));
        let mut prim_vec: Vec<Vec<u8>> = Vec::new();
        prim_vec.push(event.primitive);
        let gnode_bowl = GNode {
            lock_name: event.lock_name,
            tid_block: tid_vec,
            primitive: prim_vec,
            visit: 0,
            file_name: event.file_name,
            line_num: event.line_num,
        };
        assert(gnode_bowl@.tid_block =~= seq![(e.tid, e.block@)]);
        assert(gnode_bowl@.primitive =~= seq![e.primitive@]);
        assert(gnode_bowl@ == event_node(e));
        let ghost n0 = self.nodes();
        let ghost e0 = self.edges();
        let reports = self.make_graph(gnode_bowl);
        proof {
            let added = add_to_graph_spec(n0, e0, event_node(e));
            if names_unique(n0) {
                lemma_add_keeps_names_unique(n0, e0, event_node(e));
                assert forall|i: int, j: int|
                    0 <= i < self.nodes().len() && 0 <= j < self.nodes().len() && i != j implies #[trigger] self.nodes()[i].lock_name
                        != #[trigger] self.nodes()[j].lock_name by {
                    assert(self.nodes()[i].lock_name == added.nodes[i].lock_name);
                    assert(self.nodes()[j].lock_name == added.nodes[j].lock_name);
                }
            }
        }
        reports
    }
}

/// Adding an acquisition keeps lock names unique: a node is only added
/// for a lock that has none, and merging never renames a node.
pub proof fn lemma_add_keeps_names_unique(
    nodes: Seq<GNodeView>,
    edges: Seq<(usize, usize, Option<GNodeView>)>,
    g: GNodeView,
)
    requires
        names_unique(nodes),
        g.tid_block.len() > 0,
        g.primitive.len() > 0,
    ensures
        names_unique(add_to_graph_spec(nodes, edges, g).nodes),
{
    lemma_last_named_in_range(nodes, g.lock_name, nodes.len() as int);
    let out = add_to_graph_spec(nodes, edges, g).nodes;
    match last_named_below(nodes, g.lock_name, nodes.len() as int) {
        Some(ex) => {
            assert forall|i: int| 0 <= i < nodes.len() implies #[trigger] out[i].lock_name == nodes[i].lock_name by {}
            assert forall|i: int, j: int|
                0 <= i < out.len() && 0 <= j < out.len() && i != j implies #[trigger] out[i].lock_name
                    != #[trigger] out[j].lock_name by {
                assert(out[i].lock_name == nodes[i].lock_name);
                assert(out[j].lock_name == nodes[j].lock_name);
            }
        },
        None => {
            assert forall|i: int, j: int|
                0 <= i < out.len() && 0 <= j < out.len() && i != j implies #[trigger] out[i].lock_name
                    != #[trigger] out[j].lock_name by {
                if i < nodes.len() && j < nodes.len() {
                    assert(out[i] == nodes[i] && out[j] == nodes[j]);
                } else if i < nodes.len() {
                    assert(out[i] == nodes[i]);
                } else if j < nodes.len() {
                    assert(out[j] == nodes[j]);
                }
            }
        },
    }
}

/// Every acquisition lands on the node of its lock; a lock gets a new node
/// exactly when the graph has none for it, and no edge is ever removed:
/// at most one is added. Every other node stays as it was; a node the
/// acquisition merges into keeps its name, mark and position, and only
/// gains acquisitions and primitives at the end.
pub proof fn law_acquisition_lands_on_its_lock(
    nodes: Seq<GNodeView>,
    edges: Seq<(usize, usize, Option<GNodeView>)>,
    g: GNodeView,
)
    requires
        g.tid_block.len() > 0,
        g.primitive.len() > 0,
    ensures
        ({
            let out = add_to_graph_spec(nodes, edges, g);
            &&& 0 <= out.index < out.nodes.len()
            &&& out.nodes[out.index].lock_name == g.lock_name
            &&& (exists|i: int| 0 <= i < nodes.len() && #[trigger] nodes[i].lock_name == g.lock_name)
                ==> out.nodes.len() == nodes.len()
            &&& (forall|i: int| 0 <= i < nodes.len() ==> #[trigger] nodes[i].lock_name != g.lock_name)
                ==> out.nodes.len() == nodes.len() + 1
            &&& edges.len() <= out.edges.len() <= edges.len() + 1
            &&& out.edges.subrange(0, edges.len() as int) == edges
            &&& forall|i: int| 0 <= i < nodes.len() && i != out.index ==> #[trigger] out.nodes[i] == nodes[i]
            &&& out.index == nodes.len() ==> out.nodes[out.index] == g
            &&& out.index < nodes.len() ==> {
                let o = nodes[out.index];
                let m = out.nodes[out.index];
                &&& m.lock_name == o.lock_name
                &&& m.visit == o.visit
                &&& m.file_name == o.file_name
                &&& m.line_num == o.line_num
                &&& o.tid_block.len() <= m.tid_block.len()
                &&& m.tid_block.subrange(0, o.tid_block.len() as int) == o.tid_block
                &&& o.primitive.len() <= m.primitive.len()
                &&& m.primitive.subrange(0, o.primitive.len() as int) == o.primitive
            }
        }),
{
    lemma_last_named_in_range(nodes, g.lock_name, nodes.len() as int);
    let out = add_to_graph_spec(nodes, edges, g);
    assert(out.edges.subrange(0, edges.len() as int) =~= edges);
    if out.index < nodes.len() {
        let o = nodes[out.index];
        let m = out.nodes[out.index];
        assert(m.tid_block.subrange(0, o.tid_block.len() as int) =~= o.tid_block);
        assert(m.primitive.subrange(0, o.primitive.len() as int) =~= o.primitive);
    }
}

/// Taking a lock again in a block nested with one of its own acquisitions
/// adds a self edge on its node, whatever the primitive: the edge carries
/// nothing for a mutex and the acquisition for a read or write lock, and a
/// read or write acquisition is recorded on the node.
pub proof fn law_reacquisition_adds_self_edge(
    nodes: Seq<GNodeView>,
    edges: Seq<(usize, usize, Option<GNodeView>)>,
    g: GNodeView,
    i: int,
)
    requires
        names_unique(nodes),
        g.tid_block.len() > 0,
        g.primitive.len() > 0,
        0 <= i < nodes.len(),
        nodes[i].lock_name == g.lock_name,
        exists|k: int|
            0 <= k < nodes[i].tid_block.len() && blocks_nested(g.tid_block[0].1, #[trigger] nodes[i].tid_block[k].1),
    ensures
        ({
            let out = add_to_graph_spec(nodes, edges, g);
            &&& out.index == i
            &&& out.nodes.len() == nodes.len()
            &&& out.edges == edges.push(
                (
                    i as usize,
                    i as usize,
                    if g.primitive[0] == lock_word() {
                        None
                    } else {
                        Some(g)
                    },
                ),
            )
            &&& out.nodes[i].tid_block == nodes[i].tid_block
            &&& out.nodes[i].primitive == if g.primitive[0] == lock_word() {
                nodes[i].primitive
            } else {
                nodes[i].primitive.push(g.primitive[0])
            }
        }),
{
    lemma_last_named_in_range(nodes, g.lock_name, nodes.len() as int);
    let ex = last_named_below(nodes, g.lock_name, nodes.len() as int)->0;
    assert(ex == i) by {
        if ex != i {
            assert(nodes[ex].lock_name != nodes[i].lock_name);
        }
    }
    let k = choose|k: int|
        0 <= k < nodes[i].tid_block.len() && blocks_nested(g.tid_block[0].1, #[trigger] nodes[i].tid_block[k].1);
    assert(block_related(g.tid_block[0], nodes[i].tid_block));
}

/// The first node below `upto` related to `tb` is the one with no related
/// node before it; there is none when no node below `upto` is related.
pub proof fn lemma_first_related_is_first(nodes: Seq<GNodeView>, tb: (i32, Seq<u8>), k: int, upto: int)
    requires
        0 <= k,
        upto <= nodes.len(),
    ensures
        (forall|j: int| k <= j < upto ==> !block_related(tb, #[trigger] nodes[j].tid_block)) ==> first_related_from(
            nodes,
            tb,
            k,
            upto,
        ) is None,
        forall|k0: int|
            k <= k0 < upto && block_related(tb, nodes[k0].tid_block) && (forall|j: int|
                k <= j < k0 ==> !block_related(tb, #[trigger] nodes[j].tid_block)) ==> first_related_from(
                nodes,
                tb,
                k,
                upto,
            ) == Some(k0),
    decreases upto - k,
{
    if k < upto {
        lemma_first_related_is_first(nodes, tb, k + 1, upto);
    }
}

/// The edge weight an acquisition gives: nothing for a mutex, the
/// acquisition for a read or write lock.
pub open spec fn acquisition_weight(g: GNodeView) -> Option<GNodeView> {
    if g.primitive[0] == lock_word() {
        None
    } else {
        Some(g)
    }
}

/// A lock not yet in the graph gets a new node, the acquisition itself,
/// and an edge into it from the first node that has a block nested with
/// the acquisition's block; with no such node, no edge.
pub proof fn law_new_lock_gets_node(
    nodes: Seq<GNodeView>,
    edges: Seq<(usize, usize, Option<GNodeView>)>,
    g: GNodeView,
)
    requires
        g.tid_block.len() > 0,
        g.primitive.len() > 0,
        forall|i: int| 0 <= i < nodes.len() ==> #[trigger] nodes[i].lock_name != g.lock_name,
    ensures
        ({
            let out = add_to_graph_spec(nodes, edges, g);
            let tb = g.tid_block[0];
            &&& out.index == nodes.len()
            &&& out.nodes == nodes.push(g)
            &&& (forall|j: int| 0 <= j < nodes.len() ==> !block_related(tb, #[trigger] nodes[j].tid_block))
                ==> out.edges == edges
            &&& forall|k0: int|
                0 <= k0 < nodes.len() && block_related(tb, nodes[k0].tid_block) && (forall|j: int|
                    0 <= j < k0 ==> !block_related(tb, #[trigger] nodes[j].tid_block)) ==> out.edges == edges.push(
                    (k0 as usize, nodes.len() as usize, acquisition_weight(g)),
                )
        }),
{
    lemma_last_named_in_range(nodes, g.lock_name, nodes.len() as int);
    lemma_first_related_is_first(nodes, g.tid_block[0], 0, nodes.len() as int);
}

/// A lock taken in a block nested with none of its own acquisitions
/// records the acquisition on its node and gains an edge from the first
/// node that has a block nested with the acquisition's block; with no
/// such node, no edge.
pub proof fn law_lock_in_new_block(
    nodes: Seq<GNodeView>,
    edges: Seq<(usize, usize, Option<GNodeView>)>,
    g: GNodeView,
    i: int,
)
    requires
        names_unique(nodes),
        g.tid_block.len() > 0,
        g.primitive.len() > 0,
        0 <= i < nodes.len(),
        nodes[i].lock_name == g.lock_name,
        !block_related(g.tid_block[0], nodes[i].tid_block),
    ensures
        ({
            let out = add_to_graph_spec(nodes, edges, g);
            let tb = g.tid_block[0];
            &&& out.index == i
            &&& out.nodes.len() == nodes.len()
            &&& out.nodes[i].tid_block == nodes[i].tid_block.push(tb)
            &&& out.nodes[i].primitive == nodes[i].primitive.push(g.primitive[0])
            &&& (forall|j: int| 0 <= j < nodes.len() ==> !block_related(tb, #[trigger] nodes[j].tid_block))
                ==> out.edges == edges
            &&& forall|k0: int|
                0 <= k0 < nodes.len() && block_related(tb, nodes[k0].tid_block) && (forall|j: int|
                    0 <= j < k0 ==> !block_related(tb, #[trigger] nodes[j].tid_block)) ==> out.edges == edges.push(
                    (k0 as usize, i as usize, acquisition_weight(g)),
                )
        }),
{
    lemma_last_named_in_range(nodes, g.lock_name, nodes.len() as int);
    let ex = last_named_below(nodes, g.lock_name, nodes.len() as int)->0;
    assert(ex == i) by {
        if ex != i {
            assert(nodes[ex].lock_name != nodes[i].lock_name);
        }
    }
    lemma_first_related_is_first(nodes, g.tid_block[0], 0, nodes.len() as int);
}

/// A node found by `last_named_below` is in range and names the lock.
pub proof fn lemma_last_named_in_range(nodes: Seq<GNodeView>, name: Seq<u8>, i: int)
    requires
        i <= nodes.len(),
    ensures
        match last_named_below(nodes, name, i) {
            Some(k) => 0 <= k < i && nodes[k].lock_name == name,
            None => forall|j: int| 0 <= j < i ==> nodes[j].lock_name != name,
        },
    decreases i,
{
    if i > 0 {
        lemma_last_named_in_range(nodes, name, i - 1);
    }
}

/// `first_related_from` only looks at the nodes below `upto`.
pub proof fn lemma_first_related_prefix(
    a: Seq<GNodeView>,
    b: Seq<GNodeView>,
    tb: (i32, Seq<u8>),
    k: int,
    upto: int,
)
    requires
        upto <= a.len(),
        upto <= b.len(),
        forall|j: int| 0 <= j < upto ==> a[j] == b[j],
    ensures
        first_related_from(a, tb, k, upto) == first_related_from(b, tb, k, upto),
    decreases upto - k,
{
    if k >= 0 && k < upto {
        lemma_first_related_prefix(a, b, tb, k + 1, upto);
    }
}

/// The outcome of a search step: whether it stopped at a deadlock, the
/// value it returns, the nodes (with their search marks) afterwards, and
/// the deadlocks it reported.
pub struct DfsOut {
    pub early: bool,
    pub result: bool,
    pub nodes: Seq<GNodeView>,
    pub reports: Seq<ReportView>,
}

/// `nodes` with the search mark of node `i` set to `v`.
pub open spec fn with_visit(nodes: Seq<GNodeView>, i: int, v: i32) -> Seq<GNodeView> {
    nodes.update(i, GNodeView { visit: v, ..nodes[i] })
}

/// `a` and `b` differ at most in their search marks.
pub open spec fn same_but_visits(a: Seq<GNodeView>, b: Seq<GNodeView>) -> bool {
    a.len() == b.len() && forall|v: int|
        0 <= v < a.len() ==> #[trigger] b[v] == GNodeView { visit: b[v].visit, ..a[v] }
}

/// Every node unmarked in `b` is unmarked in `a`, except possibly `n`.
pub open spec fn unmarked_within(a: Seq<GNodeView>, b: Seq<GNodeView>, n: int) -> bool {
    forall|v: int| 0 <= v < b.len() && #[trigger] b[v].visit == 0 ==> a[v].visit == 0 || v == n
}

/// The number of unmarked nodes.
pub open spec fn zero_count(nodes: Seq<GNodeView>) -> nat
    decreases nodes.len(),
{
    if nodes.len() == 0 {
        0
    } else {
        zero_count(nodes.drop_last()) + if nodes.last().visit == 0 {
            1nat
        } else {
            0nat
        }
    }
}

/// One path entry per primitive recorded on `cur`, marked when the
/// primitive is `write`.
pub open spec fn primitive_entries(cur: GNodeView) -> Seq<(Seq<u8>, bool)> {
    Seq::new(cur.primitive.len(), |j: int| (cur.lock_name, cur.primitive[j] == write_word()))
}

/// The path after entering node `cur`: a read or write lock adds its
/// primitive entries.
pub open spec fn entry_path(cur: GNodeView, path: Seq<(Seq<u8>, bool)>) -> Seq<(Seq<u8>, bool)> {
    if cur.primitive[0] != lock_word() {
        path + primitive_entries(cur)
    } else {
        path
    }
}

/// The positions after entering node `cur`: its position, unless present.
pub open spec fn entry_positions(cur: GNodeView, pos: Seq<(Seq<u8>, usize)>) -> Seq<(Seq<u8>, usize)> {
    if pos.contains((cur.file_name, cur.line_num)) {
        pos
    } else {
        pos.push((cur.file_name, cur.line_num))
    }
}

/// The path handed to a read/write neighbour `m` of `n`: the path plus
/// the acquisition recorded on the edge from `n` to `m`, if any.
pub open spec fn edge_path(
    edges: Seq<(usize, usize, Option<GNodeView>)>,
    n: int,
    m: int,
    path: Seq<(Seq<u8>, bool)>,
) -> Seq<(Seq<u8>, bool)> {
    match find_edge_spec(edges, n, m) {
        Some(e) => match edges[e].2 {
            Some(g) => path.push((g.lock_name, g.primitive[0] == write_word())),
            None => path,
        },
        None => path,
    }
}

/// The search from node `n` with the given path and positions: mark `n`,
/// extend the path and positions, scan the neighbours, and unmark `n`
/// unless the scan stopped at a deadlock. `fuel` bounds the depth.
pub open spec fn dfs_spec(
    edges: Seq<(usize, usize, Option<GNodeView>)>,
    nodes: Seq<GNodeView>,
    n: int,
    path: Seq<(Seq<u8>, bool)>,
    pos: Seq<(Seq<u8>, usize)>,
    fuel: nat,
) -> DfsOut
    decreases fuel, 1nat, 0nat,
{
    let cur = nodes[n];
    let l = dfs_loop(
        edges,
        with_visit(nodes, n, 1),
        n,
        entry_path(cur, path),
        entry_positions(cur, pos),
        0,
        false,
        fuel,
    );
    if l.early {
        l
    } else {
        DfsOut { nodes: with_visit(l.nodes, n, 0), ..l }
    }
}

/// The scan of the neighbours of `n` from the `k`-th on; `ret_val` is the
/// result of the last search started from the scan.
pub open spec fn dfs_loop(
    edges: Seq<(usize, usize, Option<GNodeView>)>,
    nodes: Seq<GNodeView>,
    n: int,
    path: Seq<(Seq<u8>, bool)>,
    pos: Seq<(Seq<u8>, usize)>,
    k: int,
    ret_val: bool,
    fuel: nat,
) -> DfsOut
    decreases fuel, 0nat, outgoing(edges, n).len() - k,
{
    let nb = outgoing(edges, n);
    if k < 0 || k >= nb.len() {
        DfsOut { early: false, result: ret_val, nodes, reports: seq![] }
    } else {
        let m = nb[k] as int;
        let mv = nodes[m];
        let is_lock = mv.primitive[0] == lock_word();
        let stop = if is_lock {
            mv.visit == 1
        } else {
            mv.visit != 0 && all_written(path)
        };
        let report = if is_lock {
            ReportView::LockCycle { lock_name: mv.lock_name, positions: pos }
        } else {
            ReportView::RwCycle { lock_name: mv.lock_name }
        };
        let sub_path = if is_lock {
            path
        } else {
            edge_path(edges, n, m, path)
        };
        if stop {
            DfsOut { early: true, result: true, nodes, reports: seq![report] }
        } else if mv.visit == 0 {
            if fuel == 0 {
                DfsOut { early: false, result: false, nodes, reports: seq![] }
            } else {
                let d = dfs_spec(edges, nodes, m, sub_path, pos, (fuel - 1) as nat);
                let r = dfs_loop(edges, d.nodes, n, path, pos, k + 1, d.result, fuel);
                DfsOut { reports: d.reports + r.reports, ..r }
            }
        } else {
            dfs_loop(edges, nodes, n, path, pos, k + 1, ret_val, fuel)
        }
    }
}

/// Differing only in search marks is transitive.
pub proof fn lemma_same_but_visits_trans(a: Seq<GNodeView>, b: Seq<GNodeView>, c: Seq<GNodeView>)
    requires
        same_but_visits(a, b),
        same_but_visits(b, c),
    ensures
        same_but_visits(a, c),
{
    assert forall|v: int| 0 <= v < a.len() implies #[trigger] c[v] == GNodeView { visit: c[v].visit, ..a[v] } by {
        assert(b[v] == GNodeView { visit: b[v].visit, ..a[v] });
        assert(c[v] == GNodeView { visit: c[v].visit, ..b[v] });
    }
}

/// Setting a search mark changes nothing else.
pub proof fn lemma_with_visit_same(a: Seq<GNodeView>, i: int, x: i32)
    requires
        0 <= i < a.len(),
    ensures
        same_but_visits(a, with_visit(a, i, x)),
{
    let b = with_visit(a, i, x);
    assert forall|v: int| 0 <= v < a.len() implies #[trigger] b[v] == GNodeView { visit: b[v].visit, ..a[v] } by {}
}

/// Fewer unmarked nodes: if every node unmarked in `b` is unmarked in `a`,
/// `b` has at most as many, and fewer when `j` is unmarked in `a` only.
pub proof fn lemma_zero_count_le(a: Seq<GNodeView>, b: Seq<GNodeView>, j: int)
    requires
        a.len() == b.len(),
        forall|v: int| 0 <= v < b.len() && #[trigger] b[v].visit == 0 ==> a[v].visit == 0,
    ensures
        zero_count(b) <= zero_count(a),
        0 <= j < a.len() && a[j].visit == 0 && b[j].visit != 0 ==> zero_count(b) < zero_count(a),
    decreases a.len(),
{
    if a.len() > 0 {
        let a2 = a.drop_last();
        let b2 = b.drop_last();
        assert forall|v: int| 0 <= v < b2.len() && #[trigger] b2[v].visit == 0 implies a2[v].visit == 0 by {
            assert(b[v].visit == 0);
        }
        lemma_zero_count_le(a2, b2, j);
    }
}

/// There are at most as many unmarked nodes as nodes.
pub proof fn lemma_zero_count_bound(a: Seq<GNodeView>)
    ensures
        zero_count(a) <= a.len(),
    decreases a.len(),
{
    if a.len() > 0 {
        lemma_zero_count_bound(a.drop_last());
    }
}

/// A target of an edge leaving `n` has an edge from `n` to find.
pub proof fn lemma_outgoing_has_edge(edges: Seq<(usize, usize, Option<GNodeView>)>, n: int, k: int)
    requires
        0 <= k < outgoing(edges, n).len(),
    ensures
        find_edge_spec(edges, n, outgoing(edges, n)[k] as int) matches Some(e) && 0 <= e
            < edges.len() && edges[e].0 == n && edges[e].1 == outgoing(edges, n)[k],
        exists|e: int| 0 <= e < edges.len() && edges[e].0 == n && edges[e].1 == outgoing(edges, n)[k],
    decreases edges.len(),
{
    let last = edges.last();
    let rest = edges.drop_last();
    if last.0 == n {
        if k == 0 {
        } else {
            lemma_outgoing_has_edge(rest, n, k - 1);
            let e = find_edge_spec(rest, n, outgoing(edges, n)[k] as int)->0;
            assert(edges[e] == rest[e]);
        }
    } else {
        lemma_outgoing_has_edge(rest, n, k);
        let e = find_edge_spec(rest, n, outgoing(edges, n)[k] as int)->0;
        assert(edges[e] == rest[e]);
    }
}

/// There is an edge from `a` to `b`.
pub open spec fn has_edge(edges: Seq<(usize, usize, Option<GNodeView>)>, a: int, b: int) -> bool {
    exists|e: int| 0 <= e < edges.len() && #[trigger] edges[e].0 == a && edges[e].1 == b
}

/// Each node of `w` has an edge to the next.
pub open spec fn is_walk(edges: Seq<(usize, usize, Option<GNodeView>)>, w: Seq<int>) -> bool {
    forall|i: int| 0 <= i < w.len() - 1 ==> #[trigger] has_edge(edges, w[i], w[i + 1])
}

/// Some walk of at least one edge comes back to where it started.
pub open spec fn has_cycle(edges: Seq<(usize, usize, Option<GNodeView>)>) -> bool {
    exists|w: Seq<int>| w.len() >= 2 && w[0] == w.last() && #[trigger] is_walk(edges, w)
}

/// Every edge joins nodes below `len`.
pub open spec fn edges_in(edges: Seq<(usize, usize, Option<GNodeView>)>, len: int) -> bool {
    forall|e: int| 0 <= e < edges.len() ==> (#[trigger] edges[e]).0 < len && edges[e].1 < len
}

/// The nodes on `stack` are marked 1 and all others 0; the stack's entries
/// are nodes.
pub open spec fn marks_on_stack(nodes: Seq<GNodeView>, stack: Seq<int>) -> bool {
    &&& forall|i: int| 0 <= i < stack.len() ==> 0 <= #[trigger] stack[i] < nodes.len()
    &&& forall|v: int|
        0 <= v < nodes.len() ==> (#[trigger] nodes[v]).visit == (if stack.contains(v) {
            1i32
        } else {
            0i32
        })
}

/// A search that starts at an unmarked node reached by an edge from the
/// top of a walk of marked nodes either reports nothing, and then it did
/// not stop early and the nodes end as they were, or it reports, and then
/// the graph has a cycle.
pub proof fn lemma_dfs_cycle(
    edges: Seq<(usize, usize, Option<GNodeView>)>,
    nodes: Seq<GNodeView>,
    n: int,
    path: Seq<(Seq<u8>, bool)>,
    pos: Seq<(Seq<u8>, usize)>,
    fuel: nat,
    stack: Seq<int>,
)
    requires
        edges_in(edges, nodes.len() as int),
        0 <= n < nodes.len(),
        nodes[n].visit == 0,
        marks_on_stack(nodes, stack),
        is_walk(edges, stack),
        stack.len() > 0 ==> has_edge(edges, stack.last(), n),
    ensures
        ({
            let out = dfs_spec(edges, nodes, n, path, pos, fuel);
            &&& out.reports.len() == 0 ==> !out.early && same_but_visits(nodes, out.nodes) && marks_on_stack(
                out.nodes,
                stack,
            )
            &&& out.reports.len() > 0 ==> has_cycle(edges)
        }),
    decreases fuel, 1nat, 0nat,
{
    let cur = nodes[n];
    let n1 = with_visit(nodes, n, 1);
    let s1 = stack.push(n);
    lemma_enter_node(edges, nodes, stack, n);
    let l = dfs_loop(edges, n1, n, entry_path(cur, path), entry_positions(cur, pos), 0, false, fuel);
    lemma_dfs_loop_cycle(edges, n1, n, entry_path(cur, path), entry_positions(cur, pos), 0, false, fuel, s1);
    if l.reports.len() == 0 {
        let out = with_visit(l.nodes, n, 0);
        lemma_with_visit_same(l.nodes, n, 0);
        lemma_same_but_visits_trans(nodes, n1, l.nodes);
        lemma_same_but_visits_trans(nodes, l.nodes, out);
        assert forall|v: int| 0 <= v < out.len() implies (#[trigger] out[v]).visit == (if stack.contains(v) {
            1i32
        } else {
            0i32
        }) by {
            if v != n {
                assert(out[v] == l.nodes[v]);
                assert(l.nodes[v].visit == (if s1.contains(v) {
                    1i32
                } else {
                    0i32
                }));
                if stack.contains(v) {
                    let i = choose|i: int| 0 <= i < stack.len() && stack[i] == v;
                    assert(s1[i] == v);
                }
                if s1.contains(v) {
                    let i = choose|i: int| 0 <= i < s1.len() && s1[i] == v;
                    if i < stack.len() {
                        assert(stack[i] == v);
                    }
                }
            }
        }
    }
}

/// The scan of the neighbours of the top `n` of a walk of marked nodes
/// either reports nothing, and then it did not stop early and the nodes
/// end as they were, or it reports, and then the graph has a cycle.
pub proof fn lemma_dfs_loop_cycle(
    edges: Seq<(usize, usize, Option<GNodeView>)>,
    nodes: Seq<GNodeView>,
    n: int,
    path: Seq<(Seq<u8>, bool)>,
    pos: Seq<(Seq<u8>, usize)>,
    k: int,
    ret_val: bool,
    fuel: nat,
    stack: Seq<int>,
)
    requires
        edges_in(edges, nodes.len() as int),
        0 <= n < nodes.len(),
        marks_on_stack(nodes, stack),
        is_walk(edges, stack),
        stack.len() > 0,
        stack.last() == n,
    ensures
        ({
            let out = dfs_loop(edges, nodes, n, path, pos, k, ret_val, fuel);
            &&& out.reports.len() == 0 ==> !out.early && same_but_visits(nodes, out.nodes) && marks_on_stack(
                out.nodes,
                stack,
            )
            &&& out.reports.len() > 0 ==> has_cycle(edges)
        }),
    decreases fuel, 0nat, outgoing(edges, n).len() - k,
{
    let nb = outgoing(edges, n);
    if 0 <= k < nb.len() {
        let m = nb[k] as int;
        lemma_outgoing_has_edge(edges, n, k);
        let e = choose|e: int| 0 <= e < edges.len() && edges[e].0 == n && edges[e].1 == nb[k];
        assert(edges[e].0 < nodes.len() && edges[e].1 < nodes.len());
        assert(has_edge(edges, n, m));
        let mv = nodes[m];
        if mv.visit != 0 {
            assert(stack.contains(m));
            let i = choose|i: int| 0 <= i < stack.len() && stack[i] == m;
            let w = stack.subrange(i, stack.len() as int).push(m);
            assert forall|j: int| 0 <= j < w.len() - 1 implies #[trigger] has_edge(edges, w[j], w[j + 1]) by {
                if j < w.len() - 2 {
                    assert(w[j] == stack[i + j] && w[j + 1] == stack[i + j + 1]);
                    assert(has_edge(edges, stack[i + j], stack[i + j + 1]));
                } else {
                    assert(w[j] == stack.last() && w[j + 1] == m);
                }
            }
            assert(w[0] == m && w.last() == m);
            assert(is_walk(edges, w));
        }
        if mv.visit == 0 && fuel > 0 {
            let d = dfs_spec(edges, nodes, m, if mv.primitive[0] == lock_word() {
                path
            } else {
                edge_path(edges, n, m, path)
            }, pos, (fuel - 1) as nat);
            lemma_dfs_cycle(edges, nodes, m, if mv.primitive[0] == lock_word() {
                path
            } else {
                edge_path(edges, n, m, path)
            }, pos, (fuel - 1) as nat, stack);
            if d.reports.len() == 0 {
                lemma_dfs_loop_cycle(edges, d.nodes, n, path, pos, k + 1, d.result, fuel, stack);
                let r = dfs_loop(edges, d.nodes, n, path, pos, k + 1, d.result, fuel);
                if r.reports.len() == 0 {
                    lemma_same_but_visits_trans(nodes, d.nodes, r.nodes);
                }
            }
        } else if mv.visit != 0 {
            lemma_dfs_loop_cycle(edges, nodes, n, path, pos, k + 1, ret_val, fuel, stack);
        }
    }
}

/// The first node at or after `k` and below `upto` related to `tb` lies in
/// that range.
pub proof fn lemma_first_related_in_range(nodes: Seq<GNodeView>, tb: (i32, Seq<u8>), k: int, upto: int)
    ensures
        first_related_from(nodes, tb, k, upto) matches Some(i) ==> k <= i < upto,
    decreases upto - k,
{
    if k >= 0 && k < upto && !block_related(tb, nodes[k].tid_block) {
        lemma_first_related_in_range(nodes, tb, k + 1, upto);
    }
}

/// A cycle stays a cycle when edges are added.
pub proof fn lemma_cycle_kept(
    edges: Seq<(usize, usize, Option<GNodeView>)>,
    more: Seq<(usize, usize, Option<GNodeView>)>,
)
    requires
        has_cycle(edges),
        edges.len() <= more.len(),
        more.subrange(0, edges.len() as int) == edges,
    ensures
        has_cycle(more),
{
    let w = choose|w: Seq<int>| w.len() >= 2 && w[0] == w.last() && #[trigger] is_walk(edges, w);
    assert forall|i: int| 0 <= i < w.len() - 1 implies #[trigger] has_edge(more, w[i], w[i + 1]) by {
        assert(has_edge(edges, w[i], w[i + 1]));
        let e = choose|e: int| 0 <= e < edges.len() && #[trigger] edges[e].0 == w[i] && edges[e].1 == w[i + 1];
        assert(more[e] == more.subrange(0, edges.len() as int)[e]);
    }
    assert(is_walk(more, w));
}

/// A reported deadlock comes with a cycle. The lock graph keeps the
/// invariant that no lock is marked or the graph has a cycle of lock-order
/// edges: a new graph has no marks, and a search leaves marks behind only
/// when it reports. Under it, when the search from the lock of the
/// acquisition `g` reports a deadlock, the graph has a cycle, and the
/// invariant holds again afterwards.
pub proof fn law_report_means_cycle(
    nodes: Seq<GNodeView>,
    edges: Seq<(usize, usize, Option<GNodeView>)>,
    g: GNodeView,
)
    requires
        graph_wf(nodes, edges),
        (forall|v: int| 0 <= v < nodes.len() ==> #[trigger] nodes[v].visit == 0) || has_cycle(edges),
        g.tid_block.len() > 0,
        g.primitive.len() > 0,
        g.visit == 0,
    ensures
        ({
            let added = add_to_graph_spec(nodes, edges, g);
            let out = dfs_spec(
                added.edges,
                added.nodes,
                added.index,
                seq![],
                seq![],
                (added.nodes.len() + 1) as nat,
            );
            &&& out.reports.len() > 0 ==> has_cycle(added.edges)
            &&& (forall|v: int| 0 <= v < out.nodes.len() ==> #[trigger] out.nodes[v].visit == 0) || has_cycle(
                added.edges,
            )
        }),
{
    let added = add_to_graph_spec(nodes, edges, g);
    law_acquisition_lands_on_its_lock(nodes, edges, g);
    lemma_added_graph(nodes, edges, g);
    if has_cycle(edges) {
        lemma_cycle_kept(edges, added.edges);
    } else {
        lemma_dfs_cycle(
            added.edges,
            added.nodes,
            added.index,
            seq![],
            seq![],
            (added.nodes.len() + 1) as nat,
            seq![],
        );
        let out = dfs_spec(
            added.edges,
            added.nodes,
            added.index,
            seq![],
            seq![],
            (added.nodes.len() + 1) as nat,
        );
        if out.reports.len() == 0 {
            assert forall|v: int| 0 <= v < out.nodes.len() implies #[trigger] out.nodes[v].visit == 0 by {
                assert(!Seq::<int>::empty().contains(v));
            }
        }
    }
}

/// No node appears twice in `w`.
pub open spec fn no_repeats(w: Seq<int>) -> bool {
    forall|i: int, j: int| 0 <= i < j < w.len() ==> w[i] != w[j]
}

/// Every node records a mutex acquisition first.
pub open spec fn all_mutexes(nodes: Seq<GNodeView>) -> bool {
    forall|v: int|
        0 <= v < nodes.len() ==> (#[trigger] nodes[v]).primitive.len() > 0 && nodes[v].primitive[0] == lock_word()
}

/// Every node records only write acquisitions, and every edge that
/// carries an acquisition carries a write.
pub open spec fn all_writes(nodes: Seq<GNodeView>, edges: Seq<(usize, usize, Option<GNodeView>)>) -> bool {
    &&& forall|v: int|
        0 <= v < nodes.len() ==> (#[trigger] nodes[v]).primitive.len() > 0 && forall|j: int|
            0 <= j < nodes[v].primitive.len() ==> #[trigger] nodes[v].primitive[j] == write_word()
    &&& forall|e: int|
        0 <= e < edges.len() ==> ((#[trigger] edges[e]).2 matches Some(g) ==> g.primitive.len() > 0
            && g.primitive[0] == write_word())
}

/// Every entry of a search path is a write.
pub open spec fn all_entries_written(path: Seq<(Seq<u8>, bool)>) -> bool {
    forall|i: int| 0 <= i < path.len() ==> (#[trigger] path[i]).1
}

/// Marked neighbours stop the search: the graph is all mutexes, or all
/// writes with a path of writes.
pub open spec fn marks_stop(
    nodes: Seq<GNodeView>,
    edges: Seq<(usize, usize, Option<GNodeView>)>,
    path: Seq<(Seq<u8>, bool)>,
) -> bool {
    all_mutexes(nodes) || (all_writes(nodes, edges) && all_entries_written(path))
}

/// A path of writes has every lock on it written.
pub proof fn lemma_entries_written(path: Seq<(Seq<u8>, bool)>)
    requires
        all_entries_written(path),
    ensures
        all_written(path),
{
    assert forall|i: int| 0 <= i < path.len() implies #[trigger] is_written(path, path[i].0) by {
        assert(path[i].1);
    }
}

/// The edge that `find_edge_spec` finds is an edge of the list.
pub proof fn lemma_find_edge_in_range(edges: Seq<(usize, usize, Option<GNodeView>)>, a: int, b: int)
    ensures
        find_edge_spec(edges, a, b) matches Some(e) ==> 0 <= e < edges.len() && edges[e].0 == a && edges[e].1
            == b,
    decreases edges.len(),
{
    if edges.len() > 0 {
        lemma_find_edge_in_range(edges.drop_last(), a, b);
        if let Some(e) = find_edge_spec(edges.drop_last(), a, b) {
            assert(edges[e] == edges.drop_last()[e]);
        }
    }
}

/// An edge from `a` to `b` puts `b` among the targets of `a`'s outgoing
/// edges.
pub proof fn lemma_has_edge_outgoing(edges: Seq<(usize, usize, Option<GNodeView>)>, a: int, b: int)
    requires
        has_edge(edges, a, b),
    ensures
        exists|k: int| 0 <= k < outgoing(edges, a).len() && #[trigger] outgoing(edges, a)[k] == b,
    decreases edges.len(),
{
    let e = choose|e: int| 0 <= e < edges.len() && #[trigger] edges[e].0 == a && edges[e].1 == b;
    let last = edges.last();
    let rest = edges.drop_last();
    if e == edges.len() - 1 {
        assert(outgoing(edges, a)[0] == b);
    } else {
        assert(rest[e] == edges[e]);
        assert(has_edge(rest, a, b));
        lemma_has_edge_outgoing(rest, a, b);
        let k = choose|k: int| 0 <= k < outgoing(rest, a).len() && #[trigger] outgoing(rest, a)[k] == b;
        if last.0 == a {
            assert(outgoing(edges, a)[k + 1] == b);
        } else {
            assert(outgoing(edges, a)[k] == b);
        }
    }
}

/// Entering the unmarked node `n` from the top of a walk of marked nodes
/// marks it, pushes it on the walk, and changes nothing else.
pub proof fn lemma_enter_node(
    edges: Seq<(usize, usize, Option<GNodeView>)>,
    nodes: Seq<GNodeView>,
    stack: Seq<int>,
    n: int,
)
    requires
        0 <= n < nodes.len(),
        nodes[n].visit == 0,
        marks_on_stack(nodes, stack),
        is_walk(edges, stack),
        stack.len() > 0 ==> has_edge(edges, stack.last(), n),
    ensures
        !stack.contains(n),
        marks_on_stack(with_visit(nodes, n, 1), stack.push(n)),
        is_walk(edges, stack.push(n)),
        same_but_visits(nodes, with_visit(nodes, n, 1)),
        zero_count(with_visit(nodes, n, 1)) < zero_count(nodes),
{
    let n1 = with_visit(nodes, n, 1);
    let s1 = stack.push(n);
    assert(!stack.contains(n)) by {
        assert(nodes[n].visit == 0);
    }
    lemma_with_visit_same(nodes, n, 1);
    assert forall|v: int| 0 <= v < n1.len() implies (#[trigger] n1[v]).visit == (if s1.contains(v) {
        1i32
    } else {
        0i32
    }) by {
        if v == n {
            assert(s1[stack.len() as int] == n);
        } else {
            assert(n1[v] == nodes[v]);
            if stack.contains(v) {
                let i = choose|i: int| 0 <= i < stack.len() && stack[i] == v;
                assert(s1[i] == v);
            }
            if s1.contains(v) {
                let i = choose|i: int| 0 <= i < s1.len() && s1[i] == v;
                assert(stack[i] == v);
            }
        }
    }
    assert forall|i: int| 0 <= i < s1.len() implies 0 <= #[trigger] s1[i] < n1.len() by {
        if i < stack.len() {
            assert(s1[i] == stack[i]);
        }
    }
    assert forall|i: int| 0 <= i < s1.len() - 1 implies #[trigger] has_edge(edges, s1[i], s1[i + 1]) by {
        if i < stack.len() - 1 {
            assert(s1[i] == stack[i] && s1[i + 1] == stack[i + 1]);
            assert(has_edge(edges, stack[i], stack[i + 1]));
        } else {
            assert(s1[i] == stack.last() && s1[i + 1] == n);
        }
    }
    assert forall|v: int| 0 <= v < n1.len() && #[trigger] n1[v].visit == 0 implies nodes[v].visit == 0 by {
        if v != n {
            assert(n1[v] == nodes[v]);
        }
    }
    lemma_zero_count_le(nodes, n1, n);
}

/// In a graph of mutexes, or of write acquisitions searched along a path
/// of writes, a search from an unmarked node `n` reports a deadlock when a
/// path without repeats from `n`, through nodes off the stack of marked
/// nodes, ends in a lock with an edge back into the stack or the path,
/// given depth enough for every unmarked node.
pub proof fn lemma_dfs_finds_cycle(
    edges: Seq<(usize, usize, Option<GNodeView>)>,
    nodes: Seq<GNodeView>,
    n: int,
    path: Seq<(Seq<u8>, bool)>,
    pos: Seq<(Seq<u8>, usize)>,
    fuel: nat,
    stack: Seq<int>,
    w: Seq<int>,
    y: int,
)
    requires
        edges_in(edges, nodes.len() as int),
        marks_stop(nodes, edges, path),
        0 <= n < nodes.len(),
        nodes[n].visit == 0,
        marks_on_stack(nodes, stack),
        is_walk(edges, stack),
        stack.len() > 0 ==> has_edge(edges, stack.last(), n),
        fuel >= zero_count(nodes),
        w.len() >= 1,
        w[0] == n,
        is_walk(edges, w),
        no_repeats(w),
        forall|i: int| 0 <= i < w.len() ==> !stack.contains(#[trigger] w[i]),
        has_edge(edges, w.last(), y),
        stack.contains(y) || w.contains(y),
    ensures
        dfs_spec(edges, nodes, n, path, pos, fuel).reports.len() > 0,
    decreases fuel, 1nat, 0nat,
{
    let cur = nodes[n];
    let n1 = with_visit(nodes, n, 1);
    let s1 = stack.push(n);
    lemma_enter_node(edges, nodes, stack, n);
    assert(marks_stop(n1, edges, entry_path(cur, path))) by {
        if all_mutexes(nodes) {
            assert forall|v: int| 0 <= v < n1.len() implies (#[trigger] n1[v]).primitive.len() > 0
                && n1[v].primitive[0] == lock_word() by {
                assert(nodes[v].primitive.len() > 0 && nodes[v].primitive[0] == lock_word());
                assert(n1[v].primitive == nodes[v].primitive);
            }
        } else {
            assert forall|v: int| 0 <= v < n1.len() implies (#[trigger] n1[v]).primitive.len() > 0 && forall|j: int|
                0 <= j < n1[v].primitive.len() ==> #[trigger] n1[v].primitive[j] == write_word() by {
                assert(n1[v].primitive == nodes[v].primitive);
                assert(nodes[v].primitive.len() > 0);
            }
            assert(cur.primitive.len() > 0 && cur.primitive[0] == write_word());
            let ep = entry_path(cur, path);
            assert forall|i: int| 0 <= i < ep.len() implies (#[trigger] ep[i]).1 by {
                if i >= path.len() {
                    assert(ep[i] == primitive_entries(cur)[i - path.len()]);
                    assert(cur.primitive[i - path.len()] == write_word());
                }
            }
        }
    }
    let y1 = if w.len() == 1 {
        y
    } else {
        w[1]
    };
    assert(has_edge(edges, n, y1)) by {
        if w.len() > 1 {
            assert(has_edge(edges, w[0], w[0int + 1]));
        }
    }
    lemma_has_edge_outgoing(edges, n, y1);
    let k1 = choose|k: int| 0 <= k < outgoing(edges, n).len() && #[trigger] outgoing(edges, n)[k] == y1;
    assert forall|i: int| 1 <= i < w.len() implies !s1.contains(#[trigger] w[i]) by {
        assert(!stack.contains(w[i]));
        assert(w[i] != w[0]);
        if s1.contains(w[i]) {
            let j = choose|j: int| 0 <= j < s1.len() && s1[j] == w[i];
            if j < stack.len() {
                assert(stack[j] == w[i]);
            }
        }
    }
    let rest = w.subrange(1, w.len() as int);
    assert(s1.contains(y) || rest.contains(y)) by {
        if stack.contains(y) {
            let j = choose|j: int| 0 <= j < stack.len() && stack[j] == y;
            assert(s1[j] == y);
        } else {
            let j = choose|j: int| 0 <= j < w.len() && w[j] == y;
            if j == 0 {
                assert(s1[stack.len() as int] == y);
            } else {
                assert(rest[j - 1] == y);
            }
        }
    }
    lemma_dfs_loop_finds_cycle(
        edges,
        n1,
        n,
        entry_path(cur, path),
        entry_positions(cur, pos),
        0,
        false,
        fuel,
        s1,
        w,
        y,
        k1,
    );
}

/// The scan of the neighbours of the top `n` of the stack, from the `k`-th
/// on, reports a deadlock when the `k1`-th neighbour starts (or, for a path
/// of one node, closes) a path as in [`lemma_dfs_finds_cycle`].
pub proof fn lemma_dfs_loop_finds_cycle(
    edges: Seq<(usize, usize, Option<GNodeView>)>,
    nodes: Seq<GNodeView>,
    n: int,
    path: Seq<(Seq<u8>, bool)>,
    pos: Seq<(Seq<u8>, usize)>,
    k: int,
    ret_val: bool,
    fuel: nat,
    stack: Seq<int>,
    w: Seq<int>,
    y: int,
    k1: int,
)
    requires
        edges_in(edges, nodes.len() as int),
        marks_stop(nodes, edges, path),
        0 <= n < nodes.len(),
        marks_on_stack(nodes, stack),
        is_walk(edges, stack),
        stack.len() > 0,
        stack.last() == n,
        fuel >= zero_count(nodes) + 1,
        w.len() >= 1,
        w[0] == n,
        is_walk(edges, w),
        no_repeats(w),
        forall|i: int| 1 <= i < w.len() ==> !stack.contains(#[trigger] w[i]),
        has_edge(edges, w.last(), y),
        stack.contains(y) || w.subrange(1, w.len() as int).contains(y),
        0 <= k <= k1 < outgoing(edges, n).len(),
        outgoing(edges, n)[k1] == (if w.len() == 1 {
            y
        } else {
            w[1]
        }),
    ensures
        dfs_loop(edges, nodes, n, path, pos, k, ret_val, fuel).reports.len() > 0,
    decreases fuel, 0nat, outgoing(edges, n).len() - k,
{
    let nb = outgoing(edges, n);
    let m = nb[k] as int;
    lemma_outgoing_has_edge(edges, n, k);
    let e = choose|e: int| 0 <= e < edges.len() && edges[e].0 == n && edges[e].1 == nb[k];
    assert(edges[e].0 < nodes.len() && edges[e].1 < nodes.len());
    assert(has_edge(edges, n, m));
    assert(nodes[m].primitive.len() > 0);
    assert(nodes[m].visit == (if stack.contains(m) {
        1i32
    } else {
        0i32
    }));
    let is_lock = nodes[m].primitive[0] == lock_word();
    let sub_path = if is_lock {
        path
    } else {
        edge_path(edges, n, m, path)
    };
    if !all_mutexes(nodes) {
        assert(nodes[m].primitive[0] == write_word());
        assert(!is_lock);
        lemma_entries_written(path);
        lemma_find_edge_in_range(edges, n, m);
        assert(all_entries_written(sub_path)) by {
            if let Some(e2) = find_edge_spec(edges, n, m) {
                assert(edges[e2].2 matches Some(g) ==> g.primitive.len() > 0 && g.primitive[0] == write_word());
            }
        }
    } else {
        assert(nodes[m].primitive[0] == lock_word());
    }
    assert(marks_stop(nodes, edges, sub_path));
    if !stack.contains(m) {
        if k < k1 {
            lemma_dfs_cycle(edges, nodes, m, sub_path, pos, (fuel - 1) as nat, stack);
            let d = dfs_spec(edges, nodes, m, sub_path, pos, (fuel - 1) as nat);
            if d.reports.len() == 0 {
                assert(d.nodes =~= nodes) by {
                    assert forall|v: int| 0 <= v < nodes.len() implies d.nodes[v] == nodes[v] by {
                        assert(d.nodes[v] == GNodeView { visit: d.nodes[v].visit, ..nodes[v] });
                    }
                }
                lemma_dfs_loop_finds_cycle(
                    edges,
                    nodes,
                    n,
                    path,
                    pos,
                    k + 1,
                    d.result,
                    fuel,
                    stack,
                    w,
                    y,
                    k1,
                );
            }
        } else {
            assert(w.len() > 1) by {
                if w.len() == 1 {
                    assert(w.subrange(1, w.len() as int).len() == 0);
                }
            }
            let rest = w.subrange(1, w.len() as int);
            assert(rest[0] == m);
            assert forall|i: int| 0 <= i < rest.len() implies !stack.contains(#[trigger] rest[i]) by {
                assert(rest[i] == w[i + 1]);
            }
            assert forall|i: int| 0 <= i < rest.len() - 1 implies #[trigger] has_edge(edges, rest[i], rest[i + 1]) by {
                assert(rest[i] == w[i + 1] && rest[i + 1] == w[i + 2]);
                assert(has_edge(edges, w[i + 1], w[(i + 1) + 1]));
            }
            assert(rest.last() == w.last());
            assert(no_repeats(rest)) by {
                assert forall|i: int, j: int| 0 <= i < j < rest.len() implies rest[i] != rest[j] by {
                    assert(rest[i] == w[i + 1] && rest[j] == w[j + 1]);
                }
            }
            lemma_dfs_finds_cycle(edges, nodes, m, sub_path, pos, (fuel - 1) as nat, stack, rest, y);
        }
    }
}

/// The graph after an acquisition has its edges between its nodes, and no
/// node marked when none was and the acquisition's node is unmarked.
pub proof fn lemma_added_graph(
    nodes: Seq<GNodeView>,
    edges: Seq<(usize, usize, Option<GNodeView>)>,
    g: GNodeView,
)
    requires
        graph_wf(nodes, edges),
        g.tid_block.len() > 0,
        g.primitive.len() > 0,
    ensures
        ({
            let added = add_to_graph_spec(nodes, edges, g);
            &&& edges_in(added.edges, added.nodes.len() as int)
            &&& (forall|v: int| 0 <= v < nodes.len() ==> #[trigger] nodes[v].visit == 0) && g.visit == 0
                ==> marks_on_stack(added.nodes, seq![])
            &&& all_mutexes(nodes) && g.primitive[0] == lock_word() ==> all_mutexes(added.nodes)
            &&& all_writes(nodes, edges) && (forall|j: int| 0 <= j < g.primitive.len() ==> #[trigger] g.primitive[j]
                == write_word()) ==> all_writes(added.nodes, added.edges)
        }),
{
    let added = add_to_graph_spec(nodes, edges, g);
    if all_writes(nodes, edges) && (forall|j: int| 0 <= j < g.primitive.len() ==> #[trigger] g.primitive[j]
        == write_word()) {
        lemma_last_named_in_range(nodes, g.lock_name, nodes.len() as int);
        assert(g.primitive[0] == write_word());
        assert(edge_weight_for(g) == Some(g));
        assert forall|v: int| 0 <= v < added.nodes.len() implies (#[trigger] added.nodes[v]).primitive.len() > 0
            && forall|j: int| 0 <= j < added.nodes[v].primitive.len() ==> #[trigger] added.nodes[v].primitive[j]
            == write_word() by {
            if v < nodes.len() {
                assert(nodes[v].primitive.len() > 0);
                assert forall|j: int| 0 <= j < added.nodes[v].primitive.len() implies #[trigger] added.nodes[v].primitive[j]
                    == write_word() by {
                    if j < nodes[v].primitive.len() {
                        assert(nodes[v].primitive[j] == write_word());
                    } else {
                        assert(g.primitive[0] == write_word());
                    }
                }
            }
        }
        assert forall|e: int| 0 <= e < added.edges.len() implies ((#[trigger] added.edges[e]).2 matches Some(gg)
            ==> gg.primitive.len() > 0 && gg.primitive[0] == write_word()) by {
            law_acquisition_lands_on_its_lock(nodes, edges, g);
            if e < edges.len() {
                assert(added.edges.subrange(0, edges.len() as int)[e] == edges[e]);
            }
        }
    }
    law_acquisition_lands_on_its_lock(nodes, edges, g);
    lemma_last_named_in_range(nodes, g.lock_name, nodes.len() as int);
    lemma_first_related_in_range(nodes, g.tid_block[0], 0, nodes.len() as int);
    assert forall|e: int| 0 <= e < added.edges.len() implies (#[trigger] added.edges[e]).0 < added.nodes.len()
        && added.edges[e].1 < added.nodes.len() by {
        if e < edges.len() {
            assert(added.edges.subrange(0, edges.len() as int)[e] == edges[e]);
        }
    }
    if (forall|v: int| 0 <= v < nodes.len() ==> #[trigger] nodes[v].visit == 0) && g.visit == 0 {
        assert forall|v: int| 0 <= v < added.nodes.len() implies (#[trigger] added.nodes[v]).visit == (if seq![].contains(v) {
            1i32
        } else {
            0i32
        }) by {
            if v < nodes.len() {
                assert(nodes[v].visit == 0);
            }
        }
    }
    if all_mutexes(nodes) && g.primitive[0] == lock_word() {
        assert forall|v: int| 0 <= v < added.nodes.len() implies (#[trigger] added.nodes[v]).primitive.len() > 0
            && added.nodes[v].primitive[0] == lock_word() by {
            if v < nodes.len() {
                assert(nodes[v].primitive.len() > 0 && nodes[v].primitive[0] == lock_word());
            }
        }
    }
}

/// A cycle of write locks through the lock just acquired is reported:
/// when every acquisition in the graph is a write, none is marked, the
/// acquisition is a write, and afterwards a path without repeated locks
/// leads from the acquired lock to a lock with an edge back to it, the
/// search from the acquired lock reports a deadlock. The cycle need not
/// close on the lock that reports it.
pub proof fn law_write_cycle_is_reported(
    nodes: Seq<GNodeView>,
    edges: Seq<(usize, usize, Option<GNodeView>)>,
    g: GNodeView,
    w: Seq<int>,
)
    requires
        graph_wf(nodes, edges),
        forall|v: int| 0 <= v < nodes.len() ==> #[trigger] nodes[v].visit == 0,
        all_writes(nodes, edges),
        g.tid_block.len() > 0,
        g.primitive.len() > 0,
        forall|j: int| 0 <= j < g.primitive.len() ==> #[trigger] g.primitive[j] == write_word(),
        g.visit == 0,
        ({
            let added = add_to_graph_spec(nodes, edges, g);
            &&& w.len() > 0
            &&& w[0] == added.index
            &&& is_walk(added.edges, w)
            &&& no_repeats(w)
            &&& has_edge(added.edges, w.last(), added.index)
        }),
    ensures
        ({
            let added = add_to_graph_spec(nodes, edges, g);
            dfs_spec(
                added.edges,
                added.nodes,
                added.index,
                seq![],
                seq![],
                (added.nodes.len() + 1) as nat,
            ).reports.len() > 0
        }),
{
    let added = add_to_graph_spec(nodes, edges, g);
    law_acquisition_lands_on_its_lock(nodes, edges, g);
    lemma_added_graph(nodes, edges, g);
    lemma_zero_count_bound(added.nodes);
    assert(added.nodes[added.index].visit == 0);
    assert(w.contains(added.index)) by {
        assert(w[0] == added.index);
    }
    assert(all_entries_written(Seq::<(Seq<u8>, bool)>::empty()));
    lemma_dfs_finds_cycle(
        added.edges,
        added.nodes,
        added.index,
        seq![],
        seq![],
        (added.nodes.len() + 1) as nat,
        seq![],
        w,
        added.index,
    );
}

/// A cycle of mutexes through the lock just acquired is reported: when
/// every lock of the graph is a mutex, none is marked, the acquisition is
/// of a mutex, and afterwards a path without repeated locks leads from the
/// acquired lock to a lock with an edge back to it, the search from the
/// acquired lock reports a deadlock.
pub proof fn law_mutex_cycle_is_reported(
    nodes: Seq<GNodeView>,
    edges: Seq<(usize, usize, Option<GNodeView>)>,
    g: GNodeView,
    w: Seq<int>,
)
    requires
        graph_wf(nodes, edges),
        forall|v: int| 0 <= v < nodes.len() ==> #[trigger] nodes[v].visit == 0,
        all_mutexes(nodes),
        g.tid_block.len() > 0,
        g.primitive.len() > 0,
        g.primitive[0] == lock_word(),
        g.visit == 0,
        ({
            let added = add_to_graph_spec(nodes, edges, g);
            &&& w.len() > 0
            &&& w[0] == added.index
            &&& is_walk(added.edges, w)
            &&& no_repeats(w)
            &&& has_edge(added.edges, w.last(), added.index)
        }),
    ensures
        ({
            let added = add_to_graph_spec(nodes, edges, g);
            dfs_spec(
                added.edges,
                added.nodes,
                added.index,
                seq![],
                seq![],
                (added.nodes.len() + 1) as nat,
            ).reports.len() > 0
        }),
{
    let added = add_to_graph_spec(nodes, edges, g);
    law_acquisition_lands_on_its_lock(nodes, edges, g);
    lemma_added_graph(nodes, edges, g);
    lemma_zero_count_bound(added.nodes);
    assert(added.nodes[added.index].visit == 0);
    assert(w.contains(added.index)) by {
        assert(w[0] == added.index);
    }
    lemma_dfs_finds_cycle(
        added.edges,
        added.nodes,
        added.index,
        seq![],
        seq![],
        (added.nodes.len() + 1) as nat,
        seq![],
        w,
        added.index,
    );
}

/// A search changes only search marks, and keeps every mark 0 or 1.
pub proof fn law_search_changes_only_marks(
    edges: Seq<(usize, usize, Option<GNodeView>)>,
    nodes: Seq<GNodeView>,
    n: int,
    path: Seq<(Seq<u8>, bool)>,
    pos: Seq<(Seq<u8>, usize)>,
    fuel: nat,
)
    requires
        edges_in(edges, nodes.len() as int),
        0 <= n < nodes.len(),
        forall|v: int| 0 <= v < nodes.len() ==> (#[trigger] nodes[v]).visit == 0 || nodes[v].visit == 1,
    ensures
        ({
            let out = dfs_spec(edges, nodes, n, path, pos, fuel);
            &&& same_but_visits(nodes, out.nodes)
            &&& forall|v: int| 0 <= v < out.nodes.len() ==> (#[trigger] out.nodes[v]).visit == 0 || out.nodes[v].visit == 1
        }),
    decreases fuel, 1nat, 0nat,
{
    let cur = nodes[n];
    let n1 = with_visit(nodes, n, 1);
    lemma_with_visit_same(nodes, n, 1);
    assert forall|v: int| 0 <= v < n1.len() implies (#[trigger] n1[v]).visit == 0 || n1[v].visit == 1 by {
        if v != n {
            assert(n1[v] == nodes[v]);
        }
    }
    lemma_loop_changes_only_marks(edges, n1, n, entry_path(cur, path), entry_positions(cur, pos), 0, false, fuel);
    let l = dfs_loop(edges, n1, n, entry_path(cur, path), entry_positions(cur, pos), 0, false, fuel);
    lemma_same_but_visits_trans(nodes, n1, l.nodes);
    if !l.early {
        let out = with_visit(l.nodes, n, 0);
        lemma_with_visit_same(l.nodes, n, 0);
        lemma_same_but_visits_trans(nodes, l.nodes, out);
        assert forall|v: int| 0 <= v < out.len() implies (#[trigger] out[v]).visit == 0 || out[v].visit == 1 by {
            if v != n {
                assert(out[v] == l.nodes[v]);
            }
        }
    }
}

/// The scan of the neighbours of `n` changes only search marks, and keeps
/// every mark 0 or 1.
pub proof fn lemma_loop_changes_only_marks(
    edges: Seq<(usize, usize, Option<GNodeView>)>,
    nodes: Seq<GNodeView>,
    n: int,
    path: Seq<(Seq<u8>, bool)>,
    pos: Seq<(Seq<u8>, usize)>,
    k: int,
    ret_val: bool,
    fuel: nat,
)
    requires
        edges_in(edges, nodes.len() as int),
        0 <= n < nodes.len(),
        forall|v: int| 0 <= v < nodes.len() ==> (#[trigger] nodes[v]).visit == 0 || nodes[v].visit == 1,
    ensures
        ({
            let out = dfs_loop(edges, nodes, n, path, pos, k, ret_val, fuel);
            &&& same_but_visits(nodes, out.nodes)
            &&& forall|v: int| 0 <= v < out.nodes.len() ==> (#[trigger] out.nodes[v]).visit == 0 || out.nodes[v].visit == 1
        }),
    decreases fuel, 0nat, outgoing(edges, n).len() - k,
{
    let nb = outgoing(edges, n);
    if 0 <= k < nb.len() {
        let m = nb[k] as int;
        lemma_outgoing_has_edge(edges, n, k);
        let e = choose|e: int| 0 <= e < edges.len() && edges[e].0 == n && edges[e].1 == nb[k];
        assert(edges[e].0 < nodes.len() && edges[e].1 < nodes.len());
        let mv = nodes[m];
        let is_lock = mv.primitive[0] == lock_word();
        let stop = if is_lock {
            mv.visit == 1
        } else {
            mv.visit != 0 && all_written(path)
        };
        let sub_path = if is_lock {
            path
        } else {
            edge_path(edges, n, m, path)
        };
        if !stop {
            if mv.visit == 0 {
                if fuel > 0 {
                    law_search_changes_only_marks(edges, nodes, m, sub_path, pos, (fuel - 1) as nat);
                    let d = dfs_spec(edges, nodes, m, sub_path, pos, (fuel - 1) as nat);
                    lemma_loop_changes_only_marks(edges, d.nodes, n, path, pos, k + 1, d.result, fuel);
                    let r = dfs_loop(edges, d.nodes, n, path, pos, k + 1, d.result, fuel);
                    lemma_same_but_visits_trans(nodes, d.nodes, r.nodes);
                }
            } else {
                lemma_loop_changes_only_marks(edges, nodes, n, path, pos, k + 1, ret_val, fuel);
            }
        }
    }
}

/// Copies a search path.
fn clone_path(v: &Vec<(Vec<u8>, bool)>) -> (res: Vec<(Vec<u8>, bool)>)
    ensures
        res.deep_view() == v.deep_view(),
{
    let mut res: Vec<(Vec<u8>, bool)> = Vec::new();
    let mut i: usize = 0;
    while i < v.len()
        invariant
            i <= v@.len(),
            res.deep_view() == v.deep_view().take(i as int),
        decreases v@.len() - i,
    {
        let ghost before = res.deep_view();
        res.push((copy_bytes(&v[i].0), v[i].1));
        assert(res.deep_view() =~= v.deep_view().take(i + 1)) by {
            assert(res.deep_view() =~= before.push(v@[i as int].deep_view()));
        }
        i = i + 1;
    }
    assert(v.deep_view().take(i as int) =~= v.deep_view());
    res
}

/// Copies a list of positions.
fn clone_positions(v: &Vec<(Vec<u8>, usize)>) -> (res: Vec<(Vec<u8>, usize)>)
    ensures
        res.deep_view() == v.deep_view(),
{
    let mut res: Vec<(Vec<u8>, usize)> = Vec::new();
    let mut i: usize = 0;
    while i < v.len()
        invariant
            i <= v@.len(),
            res.deep_view() == v.deep_view().take(i as int),
        decreases v@.len() - i,
    {
        let ghost before = res.deep_view();
        res.push((copy_bytes(&v[i].0), v[i].1));
        assert(res.deep_view() =~= v.deep_view().take(i + 1)) by {
            assert(res.deep_view() =~= before.push(v@[i as int].deep_view()));
        }
        i = i + 1;
    }
    assert(v.deep_view().take(i as int) =~= v.deep_view());
    res
}

/// Whether `list` holds the position (`file_name`, `line_num`).
fn contains_position(list: &Vec<(Vec<u8>, usize)>, file_name: &Vec<u8>, line_num: usize) -> (res: bool)
    ensures
        res == list.deep_view().contains((file_name@, line_num)),
{
    let mut k: usize = 0;
    while k < list.len()
        invariant
            k <= list@.len(),
            forall|j: int| 0 <= j < k ==> list.deep_view()[j] != (file_name@, line_num),
        decreases list@.len() - k,
    {
        assert(list.deep_view()[k as int] == (list@[k as int].0@, list@[k as int].1));
        if list[k].1 == line_num && bytes_eq(list[k].0.as_slice(), file_name.as_slice()) {
            assert(list.deep_view()[k as int] == (file_name@, line_num));
            return true;
        }
        k = k + 1;
    }
    false
}

} // verus!
