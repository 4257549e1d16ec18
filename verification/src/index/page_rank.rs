//! The code graph: its nodes, its edges, and the layout that ranks are computed on.

use crate::order::{
    is_weak_order, lemma_ranked_contains, lemma_ranked_in_order, lemma_ranked_multiset, place_ints,
    sorted, Ranked,
};
use crate::text::views;
use std::collections::{HashMap, HashSet};
use vstd::prelude::*;

verus! {

broadcast use vstd::std_specs::hash::group_hash_axioms;

/// The most rounds in which ranks are computed.
pub const DEFAULT_MAX_ITERATIONS: usize = 50;

/// A directed graph over chunks. An edge makes its two ends nodes; an edge from a node to itself is
/// not kept.
#[derive(Debug)]
pub struct CodeGraph {
    /// The nodes, in the order in which they came.
    order: Vec<u64>,
    /// The same nodes.
    known: HashSet<u64>,
    /// The edges, in the order in which they came.
    edges: Vec<(u64, u64)>,
}

/// What a [`CodeGraph`] holds.
pub struct GraphView {
    pub nodes: Set<u64>,
    pub edges: Seq<(u64, u64)>,
}

impl GraphView {
    /// The graph with one more node.
    pub open spec fn with_node(self, node: u64) -> GraphView {
        GraphView { nodes: self.nodes.insert(node), ..self }
    }

    /// The graph with one more edge, unless it leads from a node to itself, and with its ends.
    pub open spec fn with_edge(self, from: u64, to: u64) -> GraphView {
        GraphView {
            nodes: self.nodes.insert(from).insert(to),
            edges: if from == to {
                self.edges
            } else {
                self.edges.push((from, to))
            },
        }
    }

    /// The graph with an edge in both directions.
    pub open spec fn with_undirected_edge(self, a: u64, b: u64) -> GraphView {
        self.with_edge(a, b).with_edge(b, a)
    }

    /// The ends of every edge are nodes, and no edge leads from a node to itself.
    pub open spec fn closed_under_edges(self) -> bool {
        forall|i: int|
            0 <= i < self.edges.len() ==> self.nodes.contains((#[trigger] self.edges[i]).0)
                && self.nodes.contains(self.edges[i].1) && self.edges[i].0 != self.edges[i].1
    }
}

impl View for CodeGraph {
    type V = GraphView;

    closed spec fn view(&self) -> GraphView {
        GraphView { nodes: self.known@, edges: self.edges@ }
    }
}

impl CodeGraph {
    /// The two lists of nodes agree, and the edges lie between nodes.
    pub closed spec fn wf(&self) -> bool {
        &&& self.known@.finite()
        &&& self.order@.no_duplicates()
        &&& self.order@.to_set() == self.known@
        &&& self@.closed_under_edges()
    }

    /// A graph with no node.
    pub fn new() -> (r: CodeGraph)
        ensures
            r.wf(),
            r@ == (GraphView { nodes: Set::empty(), edges: Seq::empty() }),
    {
        let r: CodeGraph = CodeGraph {
            order: Vec::new(),
            known: HashSet::new(),
            edges: Vec::new(),
        };
        proof {
            assert(r.order@.to_set() =~= r.known@);
            assert(r@.nodes =~= Set::empty());
            assert(r@.edges =~= Seq::empty());
        }
        r
    }

    /// Makes `node` a node.
    pub fn add_node(&mut self, node: u64)
        requires
            old(self).wf(),
        ensures
            final(self).wf(),
            final(self)@ == old(self)@.with_node(node),
    {
        let ghost before = self@;
        let ghost listed = self.order@;
        if !self.known.contains(&node) {
            proof {
                assert(!listed.contains(node)) by {
                    assert(listed.to_set().contains(node) == listed.contains(node));
                }
            }
            self.known.insert(node);
            self.order.push(node);
            proof {
                assert(self.order@.to_set() =~= self.known@) by {
                    assert forall|x: u64| self.order@.to_set().contains(x)
                        == self.known@.contains(x) by {
                        if self.order@.contains(x) {
                            let i = choose|i: int| 0 <= i < self.order@.len() && self.order@[i] == x;
                            if i < listed.len() {
                                assert(listed[i] == x);
                                assert(listed.to_set().contains(x));
                            }
                        }
                        if self.known@.contains(x) {
                            if x != node {
                                assert(listed.to_set().contains(x));
                                let i = choose|i: int| 0 <= i < listed.len() && listed[i] == x;
                                assert(self.order@[i] == x);
                            } else {
                                assert(self.order@[listed.len() as int] == x);
                            }
                        }
                    }
                }
            }
        }
        proof {
            assert(self@.nodes =~= before.nodes.insert(node));
            assert(self.known@.finite());
            assert(self.order@.no_duplicates());
            assert(self@.edges == before.edges);
            assert(self@.closed_under_edges()) by {
                assert forall|i: int| 0 <= i < self@.edges.len() implies self@.nodes.contains(
                    (#[trigger] self@.edges[i]).0,
                ) && self@.nodes.contains(self@.edges[i].1) && self@.edges[i].0
                    != self@.edges[i].1 by {
                    assert(before.nodes.contains(before.edges[i].0));
                }
            }
        }
    }

    /// Adds an edge, unless it leads from a node to itself; its ends become nodes.
    pub fn add_edge(&mut self, from: u64, to: u64)
        requires
            old(self).wf(),
        ensures
            final(self).wf(),
            final(self)@ == old(self)@.with_edge(from, to),
    {
        self.add_node(from);
        self.add_node(to);
        if from == to {
            return;
        }
        self.edges.push((from, to));
    }

    /// Adds an edge in both directions.
    pub fn add_undirected_edge(&mut self, a: u64, b: u64)
        requires
            old(self).wf(),
        ensures
            final(self).wf(),
            final(self)@ == old(self)@.with_undirected_edge(a, b),
    {
        self.add_edge(a, b);
        self.add_edge(b, a);
    }

    /// The number of nodes.
    pub fn node_count(&self) -> (r: usize)
        requires
            self.wf(),
        ensures
            r == self@.nodes.len(),
    {
        proof {
            self.order@.unique_seq_to_set();
        }
        self.order.len()
    }

    /// The number of edges, with those counted that lie between the same nodes.
    pub fn edge_count(&self) -> (r: usize)
        ensures
            r == self@.edges.len(),
    {
        self.edges.len()
    }

    /// Whether there is no node.
    pub fn is_empty(&self) -> (r: bool)
        requires
            self.wf(),
        ensures
            r == (self@.nodes =~= Set::<u64>::empty()),
    {
        proof {
            self.order@.unique_seq_to_set();
            if self.order@.len() > 0 {
                assert(self.order@.to_set().contains(self.order@[0]));
            } else {
                assert(self.order@.to_set() =~= Set::<u64>::empty());
            }
        }
        self.order.len() == 0
    }

    /// The nodes, each once.
    pub fn nodes(&self) -> (r: Vec<u64>)
        requires
            self.wf(),
        ensures
            r@.no_duplicates(),
            r@.to_set() == self@.nodes,
    {
        let mut r: Vec<u64> = Vec::new();
        let mut i: usize = 0;
        while i < self.order.len()
            invariant
                i <= self.order@.len(),
                r@ == self.order@.take(i as int),
            decreases self.order@.len() - i,
        {
            r.push(self.order[i]);
            i = i + 1;
        }
        proof {
            assert(r@ =~= self.order@);
        }
        r
    }
}

impl Default for CodeGraph {
    fn default() -> (r: CodeGraph)
        ensures
            r.wf(),
            r@ == (GraphView { nodes: Set::empty(), edges: Seq::empty() }),
    {
        CodeGraph::new()
    }
}

impl Clone for CodeGraph {
    fn clone(&self) -> (r: CodeGraph)
        ensures
            self.wf() ==> r.wf() && r@ == self@,
    {
        let mut order: Vec<u64> = Vec::new();
        let mut known: HashSet<u64> = HashSet::new();
        let mut i: usize = 0;
        while i < self.order.len()
            invariant
                i <= self.order@.len(),
                order@ == self.order@.take(i as int),
                known@.finite(),
                known@ == order@.to_set(),
            decreases self.order@.len() - i,
        {
            let ghost before = order@;
            order.push(self.order[i]);
            known.insert(self.order[i]);
            proof {
                assert(order@.to_set() =~= before.to_set().insert(self.order@[i as int])) by {
                    assert forall|x: u64| order@.contains(x) <==> before.contains(x) || x
                        == self.order@[i as int] by {
                        if before.contains(x) {
                            let k = choose|k: int| 0 <= k < before.len() && before[k] == x;
                            assert(order@[k] == x);
                        }
                        assert(order@[before.len() as int] == self.order@[i as int]);
                    }
                }
            }
            i = i + 1;
        }
        let mut edges: Vec<(u64, u64)> = Vec::new();
        let mut j: usize = 0;
        while j < self.edges.len()
            invariant
                j <= self.edges@.len(),
                edges@ == self.edges@.take(j as int),
            decreases self.edges@.len() - j,
        {
            edges.push(self.edges[j]);
            j = j + 1;
        }
        proof {
            assert(order@ =~= self.order@);
            assert(edges@ =~= self.edges@);
        }
        CodeGraph { order, known, edges }
    }
}

/// The graph with more nodes.
pub open spec fn with_nodes(g: GraphView, ids: Seq<u64>) -> GraphView
    decreases ids.len(),
{
    if ids.len() == 0 {
        g
    } else {
        with_nodes(g, ids.drop_last()).with_node(ids.last())
    }
}

/// The graph with more edges.
pub open spec fn with_edges(g: GraphView, edges: Seq<(u64, u64)>) -> GraphView
    decreases edges.len(),
{
    if edges.len() == 0 {
        g
    } else {
        with_edges(g, edges.drop_last()).with_edge(edges.last().0, edges.last().1)
    }
}

/// The graph with more edges, each in both directions.
pub open spec fn with_undirected_edges(g: GraphView, edges: Seq<(u64, u64)>) -> GraphView
    decreases edges.len(),
{
    if edges.len() == 0 {
        g
    } else {
        with_undirected_edges(g, edges.drop_last()).with_undirected_edge(
            edges.last().0,
            edges.last().1,
        )
    }
}

/// The code graph: every chunk a node, calls as they are, and references to types and the hierarchy
/// of types in both directions.
pub open spec fn code_graph(
    calls: Seq<(u64, u64)>,
    type_refs: Seq<(u64, u64)>,
    hierarchy: Seq<(u64, u64)>,
    ids: Seq<u64>,
) -> GraphView {
    let empty = GraphView { nodes: Set::empty(), edges: Seq::empty() };
    with_undirected_edges(
        with_undirected_edges(with_edges(with_nodes(empty, ids), calls), type_refs),
        hierarchy,
    )
}

fn add_undirected_edges(g: &mut CodeGraph, edges: &[(u64, u64)])
    requires
        old(g).wf(),
    ensures
        final(g).wf(),
        final(g)@ == with_undirected_edges(old(g)@, edges@),
{
    let ghost start = g@;
    let mut i: usize = 0;
    while i < edges.len()
        invariant
            i <= edges@.len(),
            g.wf(),
            g@ == with_undirected_edges(start, edges@.take(i as int)),
        decreases edges@.len() - i,
    {
        proof {
            assert(edges@.take(i + 1).drop_last() =~= edges@.take(i as int));
        }
        let e: (u64, u64) = edges[i];
        g.add_undirected_edge(e.0, e.1);
        i = i + 1;
    }
    proof {
        assert(edges@.take(i as int) =~= edges@);
    }
}

/// The code graph, from its edges and all its chunks.
pub fn build_code_graph(
    call_edges: &[(u64, u64)],
    type_ref_edges: &[(u64, u64)],
    hierarchy_edges: &[(u64, u64)],
    all_chunk_ids: &[u64],
) -> (r: CodeGraph)
    ensures
        r.wf(),
        r@ == code_graph(call_edges@, type_ref_edges@, hierarchy_edges@, all_chunk_ids@),
{
    let mut g: CodeGraph = CodeGraph::new();
    let ghost empty = g@;
    let mut i: usize = 0;
    while i < all_chunk_ids.len()
        invariant
            i <= all_chunk_ids@.len(),
            g.wf(),
            g@ == with_nodes(empty, all_chunk_ids@.take(i as int)),
        decreases all_chunk_ids@.len() - i,
    {
        proof {
            assert(all_chunk_ids@.take(i + 1).drop_last() =~= all_chunk_ids@.take(i as int));
        }
        g.add_node(all_chunk_ids[i]);
        i = i + 1;
    }
    proof {
        assert(all_chunk_ids@.take(i as int) =~= all_chunk_ids@);
    }
    let ghost listed = g@;
    let mut j: usize = 0;
    while j < call_edges.len()
        invariant
            j <= call_edges@.len(),
            g.wf(),
            g@ == with_edges(listed, call_edges@.take(j as int)),
        decreases call_edges@.len() - j,
    {
        proof {
            assert(call_edges@.take(j + 1).drop_last() =~= call_edges@.take(j as int));
        }
        let e: (u64, u64) = call_edges[j];
        g.add_edge(e.0, e.1);
        j = j + 1;
    }
    proof {
        assert(call_edges@.take(j as int) =~= call_edges@);
    }
    add_undirected_edges(&mut g, type_ref_edges);
    add_undirected_edges(&mut g, hierarchy_edges);
    g
}

/// The number of edges that do not lead from a node to itself.
pub open spec fn proper_edges(edges: Seq<(u64, u64)>) -> nat
    decreases edges.len(),
{
    if edges.len() == 0 {
        0
    } else {
        proper_edges(edges.drop_last()) + if edges.last().0 == edges.last().1 {
            0nat
        } else {
            1
        }
    }
}

/// Whether a node is an end of one of the edges.
pub open spec fn is_end(edges: Seq<(u64, u64)>, node: u64) -> bool {
    exists|i: int|
        0 <= i < edges.len() && ((#[trigger] edges[i]).0 == node || edges[i].1 == node)
}

proof fn lemma_is_end_step(edges: Seq<(u64, u64)>, node: u64)
    requires
        edges.len() > 0,
    ensures
        is_end(edges, node) == (is_end(edges.drop_last(), node) || edges.last().0 == node
            || edges.last().1 == node),
{
    let front = edges.drop_last();
    if is_end(front, node) {
        let i = choose|i: int|
            0 <= i < front.len() && ((#[trigger] front[i]).0 == node || front[i].1 == node);
        assert(edges[i] == front[i]);
    }
    if is_end(edges, node) {
        let i = choose|i: int|
            0 <= i < edges.len() && ((#[trigger] edges[i]).0 == node || edges[i].1 == node);
        if i < front.len() {
            assert(front[i] == edges[i]);
        }
    }
    assert(edges[edges.len() - 1] == edges.last());
}

proof fn lemma_with_nodes(g: GraphView, ids: Seq<u64>)
    ensures
        with_nodes(g, ids).edges == g.edges,
        forall|x: u64| #[trigger]
            with_nodes(g, ids).nodes.contains(x) <==> g.nodes.contains(x) || ids.contains(x),
    decreases ids.len(),
{
    if ids.len() > 0 {
        let front = ids.drop_last();
        lemma_with_nodes(g, front);
        assert forall|x: u64| #[trigger] with_nodes(g, ids).nodes.contains(x) <==> g.nodes.contains(
            x,
        ) || ids.contains(x) by {
            if front.contains(x) {
                let i = choose|i: int| 0 <= i < front.len() && front[i] == x;
                assert(ids[i] == x);
            }
            if ids.contains(x) && x != ids.last() {
                let i = choose|i: int| 0 <= i < ids.len() && ids[i] == x;
                assert(front[i] == x);
            }
            assert(ids[ids.len() - 1] == ids.last());
        }
    }
}

proof fn lemma_with_edges(g: GraphView, edges: Seq<(u64, u64)>)
    ensures
        with_edges(g, edges).edges.len() == g.edges.len() + proper_edges(edges),
        forall|x: u64| #[trigger]
            with_edges(g, edges).nodes.contains(x) <==> g.nodes.contains(x) || is_end(edges, x),
    decreases edges.len(),
{
    if edges.len() > 0 {
        lemma_with_edges(g, edges.drop_last());
        assert forall|x: u64| #[trigger] with_edges(g, edges).nodes.contains(x)
            <==> g.nodes.contains(x) || is_end(edges, x) by {
            lemma_is_end_step(edges, x);
        }
    }
}

proof fn lemma_with_undirected_edges(g: GraphView, edges: Seq<(u64, u64)>)
    ensures
        with_undirected_edges(g, edges).edges.len() == g.edges.len() + 2 * proper_edges(edges),
        forall|x: u64| #[trigger]
            with_undirected_edges(g, edges).nodes.contains(x) <==> g.nodes.contains(x) || is_end(
                edges,
                x,
            ),
    decreases edges.len(),
{
    if edges.len() > 0 {
        lemma_with_undirected_edges(g, edges.drop_last());
        assert forall|x: u64| #[trigger] with_undirected_edges(g, edges).nodes.contains(x)
            <==> g.nodes.contains(x) || is_end(edges, x) by {
            lemma_is_end_step(edges, x);
        }
    }
}

/// The nodes of the code graph are the chunks and the ends of the edges; a call is one edge, a
/// reference or a step of the hierarchy two, and what leads from a chunk to itself none.
pub proof fn lemma_code_graph(
    calls: Seq<(u64, u64)>,
    type_refs: Seq<(u64, u64)>,
    hierarchy: Seq<(u64, u64)>,
    ids: Seq<u64>,
)
    ensures
        ({
            let g = code_graph(calls, type_refs, hierarchy, ids);
            &&& forall|x: u64| #[trigger]
                g.nodes.contains(x) <==> ids.contains(x) || is_end(calls, x) || is_end(type_refs, x)
                    || is_end(hierarchy, x)
            &&& g.edges.len() == proper_edges(calls) + 2 * proper_edges(type_refs) + 2
                * proper_edges(hierarchy)
        }),
{
    let g0 = GraphView { nodes: Set::empty(), edges: Seq::empty() };
    let g1 = with_nodes(g0, ids);
    let g2 = with_edges(g1, calls);
    let g3 = with_undirected_edges(g2, type_refs);
    lemma_with_nodes(g0, ids);
    lemma_with_edges(g1, calls);
    lemma_with_undirected_edges(g2, type_refs);
    lemma_with_undirected_edges(g3, hierarchy);
    let g = code_graph(calls, type_refs, hierarchy, ids);
    assert forall|x: u64| #[trigger] g.nodes.contains(x) <==> ids.contains(x) || is_end(calls, x)
        || is_end(type_refs, x) || is_end(hierarchy, x) by {
        assert(g3.nodes.contains(x) == (g2.nodes.contains(x) || is_end(type_refs, x)));
        assert(g2.nodes.contains(x) == (g1.nodes.contains(x) || is_end(calls, x)));
        assert(g1.nodes.contains(x) == (g0.nodes.contains(x) || ids.contains(x)));
    }
}

impl Ranked for u64 {
    open spec fn before(a: u64, b: u64) -> bool {
        a < b
    }

    fn goes_before(&self, other: &Self) -> (r: bool) {
        *self < *other
    }
}

/// How many edges lead from a node.
pub open spec fn edges_from(edges: Seq<(u64, u64)>, node: u64) -> nat
    decreases edges.len(),
{
    if edges.len() == 0 {
        0
    } else {
        edges_from(edges.drop_last(), node) + if edges.last().0 == node {
            1nat
        } else {
            0
        }
    }
}

/// The places, in `nodes`, of the nodes that edges lead from to `node`, one for each edge.
pub open spec fn places_before(edges: Seq<(u64, u64)>, nodes: Seq<u64>, node: u64) -> Seq<int>
    decreases edges.len(),
{
    if edges.len() == 0 {
        Seq::empty()
    } else if edges.last().1 == node {
        places_before(edges.drop_last(), nodes, node).push(nodes.index_of(edges.last().0))
    } else {
        places_before(edges.drop_last(), nodes, node)
    }
}

/// What ranks are computed on: the nodes in ascending order, how many edges lead from each, and
/// where the edges come from that lead to each.
#[derive(Debug)]
pub struct RankLayout {
    pub nodes: Vec<u64>,
    pub out_degree: Vec<usize>,
    /// For each node, the places of the nodes from which edges lead to it.
    pub in_neighbors: Vec<Vec<usize>>,
}

impl RankLayout {
    /// The layout is that of the graph.
    pub open spec fn is_layout_of(&self, g: GraphView) -> bool {
        &&& self.nodes@.to_set() == g.nodes
        &&& forall|i: int, j: int|
            0 <= i < j < self.nodes@.len() ==> self.nodes@[i] < self.nodes@[j]
        &&& self.out_degree@.len() == self.nodes@.len()
        &&& self.in_neighbors@.len() == self.nodes@.len()
        &&& forall|v: int|
            0 <= v < self.nodes@.len() ==> #[trigger] self.out_degree@[v] == edges_from(
                g.edges,
                self.nodes@[v],
            )
        &&& forall|v: int|
            0 <= v < self.nodes@.len() ==> place_ints((#[trigger] self.in_neighbors@[v])@)
                == places_before(g.edges, self.nodes@, self.nodes@[v])
    }
}

/// The nodes in ascending order.
fn nodes_in_order(g: &CodeGraph) -> (r: Vec<u64>)
    requires
        g.wf(),
    ensures
        r@.to_set() == g@.nodes,
        forall|i: int, j: int| 0 <= i < j < r@.len() ==> r@[i] < r@[j],
{
    let listed: Vec<u64> = g.nodes();
    let ghost l = listed@;
    let r: Vec<u64> = sorted(listed);
    proof {
        assert(views(l) =~= l);
        assert(views(r@) =~= r@);
        assert(is_weak_order::<u64>());
        lemma_ranked_in_order::<u64>(l);
        lemma_ranked_multiset::<u64>(l);
        assert(r@.to_set() =~= l.to_set()) by {
            assert forall|x: u64| r@.to_set().contains(x) == l.to_set().contains(x) by {
                lemma_ranked_contains::<u64>(l, x);
            }
        }
        l.lemma_multiset_has_no_duplicates();
        r@.lemma_multiset_has_no_duplicates_conv();
        assert forall|i: int, j: int| 0 <= i < j < r@.len() implies r@[i] < r@[j] by {
            assert(!<u64 as Ranked>::before(r@[j], r@[i]));
            assert(r@[i] != r@[j]);
        }
    }
    r
}

/// What ranks are computed on.
pub fn rank_layout(g: &CodeGraph) -> (r: RankLayout)
    requires
        g.wf(),
    ensures
        r.is_layout_of(g@),
        g@.closed_under_edges(),
{
    let nodes: Vec<u64> = nodes_in_order(g);
    let mut places: HashMap<u64, usize> = HashMap::new();
    let mut out_degree: Vec<usize> = Vec::new();
    let mut in_neighbors: Vec<Vec<usize>> = Vec::new();
    let mut i: usize = 0;
    while i < nodes.len()
        invariant
            i <= nodes@.len(),
            forall|i: int, j: int| 0 <= i < j < nodes@.len() ==> nodes@[i] < nodes@[j],
            out_degree@.len() == i,
            in_neighbors@.len() == i,
            forall|k: int| 0 <= k < i ==> #[trigger] out_degree@[k] == 0,
            forall|k: int| 0 <= k < i ==> (#[trigger] in_neighbors@[k])@.len() == 0,
            forall|k: int|
                0 <= k < i ==> places@.contains_key(#[trigger] nodes@[k]) && places@[nodes@[k]]
                    == k,
        decreases nodes@.len() - i,
    {
        places.insert(nodes[i], i);
        out_degree.push(0);
        in_neighbors.push(Vec::new());
        i = i + 1;
    }
    let ghost all = g.edges@;
    proof {
        assert forall|v: int| 0 <= v < nodes@.len() implies place_ints(
            (#[trigger] in_neighbors@[v])@,
        ) == places_before(all.take(0), nodes@, nodes@[v]) by {
            assert(place_ints(in_neighbors@[v]@) =~= Seq::<int>::empty());
        }
    }
    let mut j: usize = 0;
    while j < g.edges.len()
        invariant
            j <= g.edges@.len(),
            all == g.edges@,
            g.wf(),
            nodes@.to_set() == g@.nodes,
            forall|i: int, j: int| 0 <= i < j < nodes@.len() ==> nodes@[i] < nodes@[j],
            out_degree@.len() == nodes@.len(),
            in_neighbors@.len() == nodes@.len(),
            forall|k: int|
                0 <= k < nodes@.len() ==> places@.contains_key(#[trigger] nodes@[k])
                    && places@[nodes@[k]] == k,
            forall|v: int|
                0 <= v < nodes@.len() ==> #[trigger] out_degree@[v] == edges_from(
                    all.take(j as int),
                    nodes@[v],
                ) && out_degree@[v] <= j,
            forall|v: int|
                0 <= v < nodes@.len() ==> place_ints((#[trigger] in_neighbors@[v])@) == places_before(
                    all.take(j as int),
                    nodes@,
                    nodes@[v],
                ),
        decreases g.edges@.len() - j,
    {
        let e: (u64, u64) = g.edges[j];
        proof {
            assert(all.take(j + 1).drop_last() =~= all.take(j as int));
            assert(all.take(j + 1).last() == e);
            assert(g@.edges[j as int] == e);
            assert(g@.nodes.contains(e.0) && g@.nodes.contains(e.1));
            assert(nodes@.to_set().contains(e.0) && nodes@.to_set().contains(e.1));
        }
        let from: usize = place_of(&places, &nodes, e.0);
        let to: usize = place_of(&places, &nodes, e.1);
        let ghost degrees = out_degree@;
        let ghost lists = in_neighbors@;
        let d: usize = out_degree[from];
        out_degree.set(from, d + 1);
        in_neighbors[to].push(from);
        proof {
            assert(nodes@.index_of(e.0) == from);
            assert forall|v: int| 0 <= v < nodes@.len() implies #[trigger] out_degree@[v]
                == edges_from(all.take(j + 1), nodes@[v]) && out_degree@[v] <= j + 1 by {
                assert(degrees[v] == edges_from(all.take(j as int), nodes@[v]));
                assert((nodes@[v] == e.0) == (v == from));
            }
            assert forall|v: int| 0 <= v < nodes@.len() implies place_ints(
                (#[trigger] in_neighbors@[v])@,
            ) == places_before(all.take(j + 1), nodes@, nodes@[v]) by {
                assert(place_ints(lists[v]@) == places_before(all.take(j as int), nodes@, nodes@[v]));
                assert((nodes@[v] == e.1) == (v == to));
                if v == to {
                    assert(in_neighbors@[v]@ == lists[v]@.push(from));
                    assert(place_ints(in_neighbors@[v]@) =~= place_ints(lists[v]@).push(from as int));
                } else {
                    assert(in_neighbors@[v] == lists[v]);
                }
            }
        }
        j = j + 1;
    }
    proof {
        assert(all.take(j as int) =~= all);
    }
    RankLayout { nodes, out_degree, in_neighbors }
}

/// The place of a node.
fn place_of(places: &HashMap<u64, usize>, nodes: &Vec<u64>, node: u64) -> (r: usize)
    requires
        nodes@.contains(node),
        forall|i: int, j: int| 0 <= i < j < nodes@.len() ==> nodes@[i] < nodes@[j],
        forall|k: int|
            0 <= k < nodes@.len() ==> places@.contains_key(#[trigger] nodes@[k])
                && places@[nodes@[k]] == k,
    ensures
        r < nodes@.len(),
        nodes@[r as int] == node,
        nodes@.index_of(node) == r,
{
    proof {
        let k = choose|k: int| 0 <= k < nodes@.len() && nodes@[k] == node;
        assert(places@.contains_key(nodes@[k]));
        let m = nodes@.index_of(node);
        assert(0 <= m < nodes@.len() && nodes@[m] == node);
        assert(places@[nodes@[m]] == m);
    }
    match places.get(&node) {
        Some(p) => *p,
        None => 0,
    }
}

/// Every edge comes from a node that edges lead from: no degree that a rank is divided by is zero,
/// and every place is one of a node.
pub proof fn lemma_layout_degrees(r: RankLayout, g: GraphView, v: int, k: int)
    requires
        r.is_layout_of(g),
        g.closed_under_edges(),
        0 <= v < r.nodes@.len(),
        0 <= k < r.in_neighbors@[v]@.len(),
    ensures
        r.in_neighbors@[v]@[k] < r.nodes@.len(),
        r.out_degree@[r.in_neighbors@[v]@[k] as int] > 0,
{
    let places = places_before(g.edges, r.nodes@, r.nodes@[v]);
    assert(place_ints(r.in_neighbors@[v]@) == places);
    assert(places[k] == r.in_neighbors@[v]@[k]);
    let m = lemma_place_from_edge(g.edges, r.nodes@, r.nodes@[v], k);
    let from = g.edges[m].0;
    assert(g.nodes.contains(from));
    assert(r.nodes@.to_set().contains(from));
    assert(r.nodes@.contains(from));
    let p = r.nodes@.index_of(from);
    assert(0 <= p < r.nodes@.len() && r.nodes@[p] == from);
    lemma_edges_from(g.edges, from, m);
}

proof fn lemma_place_from_edge(edges: Seq<(u64, u64)>, nodes: Seq<u64>, node: u64, k: int) -> (m:
    int)
    requires
        0 <= k < places_before(edges, nodes, node).len(),
    ensures
        0 <= m < edges.len(),
        edges[m].1 == node,
        places_before(edges, nodes, node)[k] == nodes.index_of(edges[m].0),
    decreases edges.len(),
{
    let front = edges.drop_last();
    let f = places_before(front, nodes, node);
    if k < f.len() {
        let m = lemma_place_from_edge(front, nodes, node, k);
        assert(edges[m] == front[m]);
        m
    } else {
        edges.len() - 1
    }
}

proof fn lemma_edges_from(edges: Seq<(u64, u64)>, node: u64, m: int)
    requires
        0 <= m < edges.len(),
        edges[m].0 == node,
    ensures
        edges_from(edges, node) > 0,
    decreases edges.len(),
{
    if m < edges.len() - 1 {
        assert(edges.drop_last()[m] == edges[m]);
        lemma_edges_from(edges.drop_last(), node, m);
    }
}

proof fn lemma_edges_listed(
    g: GraphView,
    edges: Seq<(u64, u64)>,
    apart: spec_fn((u64, u64)) -> bool,
)
    requires
        forall|e: (u64, u64)| #[trigger] apart(e) == (e.0 != e.1),
    ensures
        with_edges(g, edges).edges == g.edges + edges.filter(apart),
    decreases edges.len(),
{
    reveal(Seq::filter);
    if edges.len() > 0 {
        let front = edges.drop_last();
        lemma_edges_listed(g, front, apart);
        assert(apart(edges.last()) == (edges.last().0 != edges.last().1));
        assert(edges.last() == (edges.last().0, edges.last().1));
        assert((g.edges + front.filter(apart)).push(edges.last()) =~= g.edges + front.filter(
            apart,
        ).push(edges.last()));
    }
    assert(with_edges(g, edges).edges =~= g.edges + edges.filter(apart));
}

proof fn lemma_undirected_listed(
    g: GraphView,
    edges: Seq<(u64, u64)>,
    apart: spec_fn((u64, u64)) -> bool,
)
    requires
        forall|e: (u64, u64)| #[trigger] apart(e) == (e.0 != e.1),
    ensures
        ({
            let n = g.edges.len() as int;
            let p = edges.filter(apart);
            let r = with_undirected_edges(g, edges).edges;
            &&& r.len() == n + 2 * p.len()
            &&& forall|i: int| 0 <= i < n ==> #[trigger] r[i] == g.edges[i]
            &&& forall|k: int|
                0 <= k < p.len() ==> r[n + 2 * k] == #[trigger] p[k] && r[n + 2 * k + 1] == (
                    p[k].1,
                    p[k].0,
                )
        }),
    decreases edges.len(),
{
    reveal(Seq::filter);
    if edges.len() > 0 {
        let front = edges.drop_last();
        let n = g.edges.len() as int;
        let p = edges.filter(apart);
        let q = front.filter(apart);
        let r = with_undirected_edges(g, edges).edges;
        let b = with_undirected_edges(g, front).edges;
        lemma_undirected_listed(g, front, apart);
        assert(apart(edges.last()) == (edges.last().0 != edges.last().1));
        assert forall|k: int| 0 <= k < p.len() implies r[n + 2 * k] == #[trigger] p[k] && r[n + 2 * k
            + 1] == (p[k].1, p[k].0) by {
            if k < q.len() {
                assert(q[k] == p[k]);
                assert(b[n + 2 * k] == q[k] && b[n + 2 * k + 1] == (q[k].1, q[k].0));
            }
        }
        assert forall|i: int| 0 <= i < n implies #[trigger] r[i] == g.edges[i] by {
            assert(b[i] == g.edges[i]);
        }
    }
}

/// The edges of the code graph: first the calls, from the caller to the callee; then each reference
/// to a type and each step of the hierarchy, there and back; all in their order, and without those
/// that lead from a chunk to itself.
pub proof fn lemma_code_graph_edges(
    calls: Seq<(u64, u64)>,
    type_refs: Seq<(u64, u64)>,
    hierarchy: Seq<(u64, u64)>,
    ids: Seq<u64>,
)
    ensures
        ({
            let edges = code_graph(calls, type_refs, hierarchy, ids).edges;
            let apart = |e: (u64, u64)| e.0 != e.1;
            let c = calls.filter(apart);
            let t = type_refs.filter(apart);
            let h = hierarchy.filter(apart);
            let n = c.len() as int;
            let m = n + 2 * t.len();
            &&& edges.len() == c.len() + 2 * t.len() + 2 * h.len()
            &&& forall|i: int| 0 <= i < c.len() ==> edges[i] == #[trigger] c[i]
            &&& forall|k: int|
                0 <= k < t.len() ==> edges[n + 2 * k] == #[trigger] t[k] && edges[n + 2 * k + 1]
                    == (t[k].1, t[k].0)
            &&& forall|k: int|
                0 <= k < h.len() ==> edges[m + 2 * k] == #[trigger] h[k] && edges[m + 2 * k + 1]
                    == (h[k].1, h[k].0)
        }),
{
    let apart = |e: (u64, u64)| e.0 != e.1;
    let g0 = GraphView { nodes: Set::empty(), edges: Seq::empty() };
    let g1 = with_nodes(g0, ids);
    let g2 = with_edges(g1, calls);
    let g3 = with_undirected_edges(g2, type_refs);
    lemma_nodes_add_no_edge(g0, ids);
    lemma_edges_listed(g1, calls, apart);
    lemma_undirected_listed(g2, type_refs, apart);
    lemma_undirected_listed(g3, hierarchy, apart);
    let c = calls.filter(apart);
    let t = type_refs.filter(apart);
    let edges = code_graph(calls, type_refs, hierarchy, ids).edges;
    assert(g2.edges =~= c);
    assert forall|i: int| 0 <= i < c.len() implies edges[i] == #[trigger] c[i] by {
        assert(edges[i] == g3.edges[i]);
        assert(g3.edges[i] == g2.edges[i]);
    }
    assert forall|k: int| 0 <= k < t.len() implies edges[c.len() + 2 * k] == #[trigger] t[k]
        && edges[c.len() + 2 * k + 1] == (t[k].1, t[k].0) by {
        assert(edges[c.len() + 2 * k] == g3.edges[c.len() + 2 * k]);
        assert(edges[c.len() + 2 * k + 1] == g3.edges[c.len() + 2 * k + 1]);
    }
}

proof fn lemma_nodes_add_no_edge(g: GraphView, ids: Seq<u64>)
    ensures
        with_nodes(g, ids).edges == g.edges,
    decreases ids.len(),
{
    if ids.len() > 0 {
        lemma_nodes_add_no_edge(g, ids.drop_last());
    }
}

/// An edge leads from one chunk to another exactly if the one calls the other, or if there is a
/// reference to a type or a step of the hierarchy between them, in either direction; none leads
/// from a chunk to itself. Without references and hierarchy the edges are the calls.
pub proof fn lemma_code_graph_direction(
    calls: Seq<(u64, u64)>,
    type_refs: Seq<(u64, u64)>,
    hierarchy: Seq<(u64, u64)>,
    ids: Seq<u64>,
)
    ensures
        ({
            let edges = code_graph(calls, type_refs, hierarchy, ids).edges;
            &&& forall|a: u64, b: u64| #[trigger]
                edges.contains((a, b)) <==> a != b && (calls.contains((a, b)) || type_refs.contains(
                    (a, b),
                ) || type_refs.contains((b, a)) || hierarchy.contains((a, b)) || hierarchy.contains(
                    (b, a),
                ))
            &&& type_refs.len() == 0 && hierarchy.len() == 0 ==> edges == calls.filter(
                |e: (u64, u64)| e.0 != e.1,
            )
        }),
{
    let apart = |e: (u64, u64)| e.0 != e.1;
    let edges = code_graph(calls, type_refs, hierarchy, ids).edges;
    let c = calls.filter(apart);
    let t = type_refs.filter(apart);
    let h = hierarchy.filter(apart);
    let n = c.len() as int;
    let m = n + 2 * t.len();
    lemma_code_graph_edges(calls, type_refs, hierarchy, ids);
    lemma_kept_pairs(calls, apart);
    lemma_kept_pairs(type_refs, apart);
    lemma_kept_pairs(hierarchy, apart);
    assert forall|a: u64, b: u64| #[trigger] edges.contains((a, b)) <==> a != b && (calls.contains(
        (a, b),
    ) || type_refs.contains((a, b)) || type_refs.contains((b, a)) || hierarchy.contains((a, b))
        || hierarchy.contains((b, a))) by {
        if edges.contains((a, b)) {
            let i = choose|i: int| 0 <= i < edges.len() && edges[i] == (a, b);
            if i < n {
                assert(c[i] == (a, b));
                assert(c.contains((a, b)));
            } else if i < m {
                let k = (i - n) / 2;
                assert(i == n + 2 * k || i == n + 2 * k + 1);
                assert(t.contains(t[k]));
            } else {
                let k = (i - m) / 2;
                assert(i == m + 2 * k || i == m + 2 * k + 1);
                assert(h.contains(h[k]));
            }
        }
        if a != b && calls.contains((a, b)) {
            assert(c.contains((a, b)));
            let k = choose|k: int| 0 <= k < c.len() && c[k] == (a, b);
            assert(edges[k] == (a, b));
        }
        if a != b && (type_refs.contains((a, b)) || type_refs.contains((b, a))) {
            let e = if type_refs.contains((a, b)) {
                (a, b)
            } else {
                (b, a)
            };
            assert(t.contains(e));
            let k = choose|k: int| 0 <= k < t.len() && t[k] == e;
            assert(edges[n + 2 * k] == e && edges[n + 2 * k + 1] == (e.1, e.0));
        }
        if a != b && (hierarchy.contains((a, b)) || hierarchy.contains((b, a))) {
            let e = if hierarchy.contains((a, b)) {
                (a, b)
            } else {
                (b, a)
            };
            assert(h.contains(e));
            let k = choose|k: int| 0 <= k < h.len() && h[k] == e;
            assert(edges[m + 2 * k] == e && edges[m + 2 * k + 1] == (e.1, e.0));
        }
    }
    if type_refs.len() == 0 && hierarchy.len() == 0 {
        reveal(Seq::filter);
        assert(edges =~= c);
    }
}

proof fn lemma_kept_pairs(s: Seq<(u64, u64)>, p: spec_fn((u64, u64)) -> bool)
    ensures
        forall|e: (u64, u64)| #[trigger] s.filter(p).contains(e) <==> s.contains(e) && p(e),
    decreases s.len(),
{
    reveal(Seq::filter);
    if s.len() > 0 {
        let front = s.drop_last();
        lemma_kept_pairs(front, p);
        assert forall|e: (u64, u64)| #[trigger] s.filter(p).contains(e) <==> s.contains(e) && p(
            e,
        ) by {
            let f = front.filter(p);
            let r = s.filter(p);
            if r.contains(e) {
                let k = choose|k: int| 0 <= k < r.len() && r[k] == e;
                if k < f.len() {
                    assert(f[k] == e);
                    assert(f.contains(e));
                    assert(front.contains(e));
                    let i = choose|i: int| 0 <= i < front.len() && front[i] == e;
                    assert(s[i] == e);
                } else {
                    assert(s[s.len() - 1] == e);
                }
            }
            if s.contains(e) && p(e) {
                let i = choose|i: int| 0 <= i < s.len() && s[i] == e;
                if i < front.len() {
                    assert(front[i] == e);
                    assert(f.contains(e));
                    let k = choose|k: int| 0 <= k < f.len() && f[k] == e;
                    assert(r[k] == e);
                } else {
                    assert(r[f.len() as int] == e);
                }
            }
        }
    } else {
        assert(s.filter(p) =~= s);
    }
}

/// In the layout the out-degree of a node is the number of edges that lead from it, and its
/// in-neighbors are the nodes that edges lead from to it, one for each such edge and in the order of
/// the edges.
pub proof fn lemma_layout_follows_edges(r: RankLayout, g: GraphView, v: int)
    requires
        r.is_layout_of(g),
        g.closed_under_edges(),
        0 <= v < r.nodes@.len(),
    ensures
        r.out_degree@[v] == g.edges.filter(|e: (u64, u64)| e.0 == r.nodes@[v]).len(),
        ({
            let to = g.edges.filter(|e: (u64, u64)| e.1 == r.nodes@[v]);
            let into = r.in_neighbors@[v]@;
            &&& into.len() == to.len()
            &&& forall|k: int|
                0 <= k < to.len() ==> r.nodes@[(#[trigger] into[k]) as int] == to[k].0
        }),
{
    let node = r.nodes@[v];
    let into = r.in_neighbors@[v]@;
    let leaves = |e: (u64, u64)| e.0 == r.nodes@[v];
    let enters = |e: (u64, u64)| e.1 == r.nodes@[v];
    lemma_degree_counts(g.edges, node, leaves);
    lemma_places_listed(g.edges, r.nodes@, node, enters);
    let places = places_before(g.edges, r.nodes@, node);
    let to = g.edges.filter(enters);
    assert(place_ints(into) == places);
    assert forall|k: int| 0 <= k < to.len() implies r.nodes@[(#[trigger] into[k]) as int]
        == to[k].0 by {
        assert(places[k] == into[k]);
        assert(places[k] == r.nodes@.index_of(to[k].0));
        lemma_kept_pairs(g.edges, enters);
        assert(to.contains(to[k]));
        let m = choose|m: int| 0 <= m < g.edges.len() && g.edges[m] == to[k];
        assert(g.nodes.contains(g.edges[m].0));
        assert(r.nodes@.to_set().contains(to[k].0));
        assert(r.nodes@.contains(to[k].0));
    }
}

proof fn lemma_degree_counts(edges: Seq<(u64, u64)>, node: u64, p: spec_fn((u64, u64)) -> bool)
    requires
        forall|e: (u64, u64)| #[trigger] p(e) == (e.0 == node),
    ensures
        edges_from(edges, node) == edges.filter(p).len(),
    decreases edges.len(),
{
    reveal(Seq::filter);
    if edges.len() > 0 {
        lemma_degree_counts(edges.drop_last(), node, p);
        assert(p(edges.last()) == (edges.last().0 == node));
    }
}

proof fn lemma_places_listed(
    edges: Seq<(u64, u64)>,
    nodes: Seq<u64>,
    node: u64,
    p: spec_fn((u64, u64)) -> bool,
)
    requires
        forall|e: (u64, u64)| #[trigger] p(e) == (e.1 == node),
    ensures
        places_before(edges, nodes, node).len() == edges.filter(p).len(),
        forall|k: int|
            0 <= k < edges.filter(p).len() ==> #[trigger] places_before(edges, nodes, node)[k]
                == nodes.index_of(edges.filter(p)[k].0),
    decreases edges.len(),
{
    reveal(Seq::filter);
    if edges.len() > 0 {
        lemma_places_listed(edges.drop_last(), nodes, node, p);
        assert(p(edges.last()) == (edges.last().1 == node));
        assert forall|k: int| 0 <= k < edges.filter(p).len() implies #[trigger] places_before(
            edges,
            nodes,
            node,
        )[k] == nodes.index_of(edges.filter(p)[k].0) by {
            let q = edges.drop_last().filter(p);
            if k < q.len() {
                assert(places_before(edges.drop_last(), nodes, node)[k] == nodes.index_of(q[k].0));
            }
        }
    }
}

} // verus!
