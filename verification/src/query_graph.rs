//! The solved query graph, a `petgraph::Graph<Node, Edge>`, as the library sees it: its nodes
//! and its edges by index, and for each node the list of the edges out of it in the order
//! petgraph keeps it (the most recently added first). Removing an edge takes it out of its
//! list and gives the last edge its index, where it stands in its own list.
use crate::query::{Edge, Node};
use petgraph::visit::EdgeRef;
use petgraph::Graph;
use vstd::prelude::*;

verus! {

/// What the library sees of a query graph: its nodes, its edges `(source, target, kind)` by
/// index, and for each node the edges out of it as `(index, target, kind)`, in list order.
pub type QView = (Seq<Node>, Seq<(usize, usize, Edge)>, Seq<Seq<(usize, usize, Edge)>>);

/// The nodes of a query graph, by index.
pub uninterp spec fn qgraph_nodes(g: Graph<Node, Edge>) -> Seq<Node>;

/// The edges of a query graph by index: `(source, target, kind)`.
pub uninterp spec fn qgraph_edges(g: Graph<Node, Edge>) -> Seq<(usize, usize, Edge)>;

/// For each node of a query graph, the edges out of it as `(index, target, kind)`, in the order
/// of its outgoing edge list.
pub uninterp spec fn qgraph_out_lists(g: Graph<Node, Edge>) -> Seq<Seq<(usize, usize, Edge)>>;

/// The view of a query graph.
pub open spec fn view_of(g: Graph<Node, Edge>) -> QView {
    (qgraph_nodes(g), qgraph_edges(g), qgraph_out_lists(g))
}

/// The edges out of `a`, as `(index, target, kind)`, in list order (a new edge goes first).
pub open spec fn out_edges(lists: Seq<Seq<(usize, usize, Edge)>>, a: usize) -> Seq<(usize, usize, Edge)> {
    lists[a as int]
}

/// One outgoing list per node, and every edge and every list entry goes into a node of the
/// graph (every edge also leaves one).
pub open spec fn view_wf(g: QView) -> bool {
    &&& g.2.len() == g.0.len()
    &&& forall|a: int, k: int| 0 <= a < g.2.len() && 0 <= k < g.2[a].len() ==> (#[trigger] g.2[a][k]).1 < g.0.len()
    &&& forall|k: int| #![trigger g.1[k]] 0 <= k < g.1.len() ==> g.1[k].0 < g.0.len() && g.1[k].1 < g.0.len()
}

/// `g` is well formed with `n` nodes.
pub open spec fn view_wf_with(g: QView, n: nat) -> bool {
    g.0.len() == n && view_wf(g)
}

/// The index of the first edge of the list `l` that goes into `b`, if any.
pub open spec fn first_out_to(l: Seq<(usize, usize, Edge)>, b: usize) -> Option<usize>
    decreases l.len(),
{
    if l.len() == 0 {
        None
    } else if l[0].1 == b {
        Some(l[0].0)
    } else {
        first_out_to(l.drop_first(), b)
    }
}

/// The lists once an edge of index `idx` from `a` to `b` is added: it comes first in `a`'s.
pub open spec fn lists_add(lists: Seq<Seq<(usize, usize, Edge)>>, a: usize, b: usize, w: Edge, idx: usize) -> Seq<
    Seq<(usize, usize, Edge)>,
> {
    lists.update(a as int, seq![(idx, b, w)] + lists[a as int])
}

/// The edges once edge `e` is removed: the last edge takes its index.
pub open spec fn edges_remove(edges: Seq<(usize, usize, Edge)>, e: int) -> Seq<(usize, usize, Edge)> {
    if 0 <= e < edges.len() {
        edges.update(e, edges.last()).drop_last()
    } else {
        edges
    }
}

/// A list once edge `e` is removed and the edge of index `last` takes index `e`.
pub open spec fn list_remove(l: Seq<(usize, usize, Edge)>, e: usize, last: int) -> Seq<(usize, usize, Edge)>
    decreases l.len(),
{
    if l.len() == 0 {
        Seq::empty()
    } else {
        let prev = list_remove(l.drop_last(), e, last);
        let t = l.last();
        if t.0 == e {
            prev
        } else if t.0 == last {
            prev.push((e, t.1, t.2))
        } else {
            prev.push(t)
        }
    }
}

/// The lists once edge `e` is removed from a graph whose last edge has index `last`.
pub open spec fn lists_remove(lists: Seq<Seq<(usize, usize, Edge)>>, e: usize, last: int) -> Seq<
    Seq<(usize, usize, Edge)>,
> {
    Seq::new(lists.len(), |a: int| list_remove(lists[a], e, last))
}

/// The view once an edge from `a` to `b` of kind `w` is added.
pub open spec fn view_add_edge(g: QView, a: usize, b: usize, w: Edge) -> QView {
    (g.0, g.1.push((a, b, w)), lists_add(g.2, a, b, w, g.1.len() as usize))
}

/// The view once node `n` is added.
pub open spec fn view_add_node(g: QView, n: Node) -> QView {
    (g.0.push(n), g.1, g.2.push(Seq::empty()))
}

/// The view once the first edge of `a`'s list that goes into `b`, if any, is removed.
pub open spec fn view_remove_edge_between(g: QView, a: usize, b: usize) -> QView {
    match first_out_to(g.2[a as int], b) {
        Some(e) => (g.0, edges_remove(g.1, e as int), lists_remove(g.2, e, g.1.len() - 1)),
        None => g,
    }
}

/// Whether some `RequiredBySubgraph` edge goes from `a` to `b`.
pub open spec fn required_step(edges: Seq<(usize, usize, Edge)>, a: usize, b: usize) -> bool {
    exists|k: int| 0 <= k < edges.len() && #[trigger] edges[k] == (a, b, Edge::RequiredBySubgraph)
}

/// A walk along `RequiredBySubgraph` edges: consecutive nodes are joined by such an edge.
pub open spec fn is_required_walk(edges: Seq<(usize, usize, Edge)>, p: Seq<usize>) -> bool {
    &&& p.len() >= 1
    &&& forall|i: int| 0 <= i < p.len() - 1 ==> #[trigger] required_step(edges, p[i], p[i + 1])
}

/// Whether `b` can be reached from `a` along `RequiredBySubgraph` edges (`a` reaches itself).
pub open spec fn required_path(edges: Seq<(usize, usize, Edge)>, a: usize, b: usize) -> bool {
    exists|p: Seq<usize>| #[trigger] is_required_walk(edges, p) && p[0] == a && p.last() == b
}

/// Each entry of a list after a removal comes from an entry of the list before it: not the
/// removed edge, and renamed to `e` when it was the last edge.
pub proof fn lemma_list_remove(l: Seq<(usize, usize, Edge)>, e: usize, last: int, j: int) -> (k: int)
    requires
        0 <= j < list_remove(l, e, last).len(),
    ensures
        0 <= k < l.len(),
        l[k].0 != e,
        list_remove(l, e, last)[j] == if l[k].0 == last {
            (e, l[k].1, l[k].2)
        } else {
            l[k]
        },
    decreases l.len(),
{
    let prev = list_remove(l.drop_last(), e, last);
    if j < prev.len() {
        let k = lemma_list_remove(l.drop_last(), e, last, j);
        assert(l.drop_last()[k] == l[k]);
        k
    } else {
        (l.len() - 1) as int
    }
}

/// Adding an edge between nodes of the graph keeps it well formed.
pub proof fn lemma_view_add_edge_wf(g: QView, a: usize, b: usize, w: Edge)
    requires
        view_wf(g),
        a < g.0.len(),
        b < g.0.len(),
    ensures
        view_wf(view_add_edge(g, a, b, w)),
{
    let h = view_add_edge(g, a, b, w);
    assert forall|x: int, k: int| 0 <= x < h.2.len() && 0 <= k < h.2[x].len() implies (#[trigger] h.2[x][k]).1 < h.0.len() by {
        if x == a as int {
            if k > 0 {
                assert(h.2[x][k] == g.2[x][k - 1]);
            }
        } else {
            assert(h.2[x][k] == g.2[x][k]);
        }
    }
    assert forall|k: int| #![trigger h.1[k]] 0 <= k < h.1.len() implies h.1[k].0 < h.0.len() && h.1[k].1 < h.0.len() by {
        if k < g.1.len() {
            assert(h.1[k] == g.1[k]);
        }
    }
}

/// Adding a node keeps the view well formed.
pub proof fn lemma_view_add_node_wf(g: QView, n: Node)
    requires
        view_wf(g),
    ensures
        view_wf(view_add_node(g, n)),
{
    let h = view_add_node(g, n);
    assert forall|x: int, k: int| 0 <= x < h.2.len() && 0 <= k < h.2[x].len() implies (#[trigger] h.2[x][k]).1 < h.0.len() by {
        assert(x < g.2.len());
        assert(h.2[x] == g.2[x]);
    }
}

/// Removing an edge keeps the nodes and the view well formed, and never adds an edge.
pub proof fn lemma_view_remove_edge_wf(g: QView, a: usize, b: usize)
    ensures
        view_remove_edge_between(g, a, b).0 == g.0,
        view_remove_edge_between(g, a, b).1.len() <= g.1.len(),
        view_wf(g) ==> view_wf(view_remove_edge_between(g, a, b)),
{
    if let Some(e) = first_out_to(g.2[a as int], b) {
        let h = view_remove_edge_between(g, a, b);
        let last = g.1.len() - 1;
        if view_wf(g) {
            assert forall|x: int, j: int| 0 <= x < h.2.len() && 0 <= j < h.2[x].len() implies (#[trigger] h.2[x][j]).1
                < h.0.len() by {
                let k = lemma_list_remove(g.2[x], e, last, j);
                assert(g.2[x][k].1 < g.0.len());
            }
            assert forall|k: int| #![trigger h.1[k]] 0 <= k < h.1.len() implies h.1[k].0 < h.0.len() && h.1[k].1 < h.0.len() by {
                if 0 <= e < g.1.len() {
                    if k == e as int {
                        assert(h.1[k] == g.1[last]);
                    } else {
                        assert(h.1[k] == g.1[k]);
                    }
                }
            }
        }
    }
}

/// `Graph::node_count`. A graph with `u32` indices never holds more than `u32::MAX` nodes.
/// Every graph is well formed with that many nodes: each node has its outgoing list, and every
/// edge, and every entry of such a list, joins nodes of the graph (petgraph keeps this as it adds
/// and removes).
#[verifier::external_body]
pub(crate) fn qg_node_count(g: &Graph<Node, Edge>) -> (r: usize)
    ensures
        r <= u32::MAX,
        view_wf_with(view_of(*g), r as nat),
{
    g.node_count()
}

/// `Graph::edge_count`. A graph with `u32` indices never holds more than `u32::MAX` edges.
#[verifier::external_body]
pub(crate) fn qg_edge_count(g: &Graph<Node, Edge>) -> (r: usize)
    ensures
        r == qgraph_edges(*g).len(),
        r <= u32::MAX,
{
    g.edge_count()
}

/// `Index<NodeIndex>` on `Graph`: the weight of node `n`; it panics past the last node.
#[verifier::external_body]
pub(crate) fn qg_node(g: &Graph<Node, Edge>, n: usize) -> (r: Node)
    requires
        n < qgraph_nodes(*g).len(),
    ensures
        r == qgraph_nodes(*g)[n as int],
{
    g[petgraph::graph::NodeIndex::new(n)]
}

/// `Graph::add_node`: appends a node, with an empty outgoing list, and returns its index; it
/// panics once `u32::MAX` nodes are held.
#[verifier::external_body]
pub(crate) fn qg_add_node(g: &mut Graph<Node, Edge>, weight: Node) -> (r: usize)
    requires
        qgraph_nodes(*old(g)).len() < u32::MAX,
    ensures
        r == qgraph_nodes(*old(g)).len(),
        view_of(*final(g)) == view_add_node(view_of(*old(g)), weight),
{
    g.add_node(weight).index()
}

/// `Graph::add_edge`: appends an edge from `a` to `b`, first in `a`'s outgoing list, and
/// returns its index, the number of edges before; it panics on a missing node or once
/// `u32::MAX` edges are held.
#[verifier::external_body]
pub(crate) fn qg_add_edge(g: &mut Graph<Node, Edge>, a: usize, b: usize, weight: Edge) -> (r: usize)
    requires
        a < qgraph_nodes(*old(g)).len(),
        b < qgraph_nodes(*old(g)).len(),
        qgraph_edges(*old(g)).len() < u32::MAX,
    ensures
        r == qgraph_edges(*old(g)).len(),
        view_of(*final(g)) == view_add_edge(view_of(*old(g)), a, b, weight),
{
    g.add_edge(petgraph::graph::NodeIndex::new(a), petgraph::graph::NodeIndex::new(b), weight).index()
}

/// `Graph::remove_edge`: removes the edge of index `e` and returns its kind. It leaves its
/// source's outgoing list, and the last edge takes index `e`, keeping its place in its list.
#[verifier::external_body]
pub(crate) fn qg_remove_edge(g: &mut Graph<Node, Edge>, e: usize) -> (r: Option<Edge>)
    requires
        e < qgraph_edges(*old(g)).len(),
    ensures
        r == Some(qgraph_edges(*old(g))[e as int].2),
        qgraph_nodes(*final(g)) == qgraph_nodes(*old(g)),
        qgraph_edges(*final(g)) == edges_remove(qgraph_edges(*old(g)), e as int),
        qgraph_out_lists(*final(g)) == lists_remove(
            qgraph_out_lists(*old(g)),
            e,
            qgraph_edges(*old(g)).len() - 1,
        ),
{
    g.remove_edge(petgraph::graph::EdgeIndex::new(e))
}

/// `Graph::find_edge`: the index of the first edge of `a`'s outgoing list that goes into `b`,
/// if any.
#[verifier::external_body]
pub(crate) fn qg_find_edge(g: &Graph<Node, Edge>, a: usize, b: usize) -> (r: Option<usize>)
    requires
        a < qgraph_nodes(*g).len(),
        b < qgraph_nodes(*g).len(),
    ensures
        r == first_out_to(qgraph_out_lists(*g)[a as int], b),
        r matches Some(e) ==> e < qgraph_edges(*g).len(),
{
    g.find_edge(petgraph::graph::NodeIndex::new(a), petgraph::graph::NodeIndex::new(b)).map(|e| e.index())
}

/// `Graph::edges`: the outgoing list of `a`, as `(index, target, kind)`.
#[verifier::external_body]
pub(crate) fn qg_edges(g: &Graph<Node, Edge>, a: usize) -> (r: Vec<(usize, usize, Edge)>)
    requires
        a < qgraph_nodes(*g).len(),
    ensures
        r@ == out_edges(qgraph_out_lists(*g), a),
        forall|i: int|
            0 <= i < r@.len() ==> #[trigger] r@[i].1 < qgraph_nodes(*g).len() && r@[i].0 < qgraph_edges(*g).len(),
{
    g.edges(petgraph::graph::NodeIndex::new(a)).map(|e| (e.id().index(), e.target().index(), *e.weight())).collect()
}

/// `petgraph::algo::has_path_connecting` over the `RequiredBySubgraph` edges only (an
/// `EdgeFiltered` view): whether `to` can be reached from `from` along them.
#[verifier::external_body]
pub(crate) fn qg_has_required_path(g: &Graph<Node, Edge>, from: usize, to: usize) -> (r: bool)
    requires
        from < qgraph_nodes(*g).len(),
        to < qgraph_nodes(*g).len(),
    ensures
        r == required_path(qgraph_edges(*g), from, to),
{
    let filtered = petgraph::visit::EdgeFiltered::from_fn(g, |edge| edge.weight().is_required_by_subgraph());
    petgraph::algo::has_path_connecting(
        &filtered,
        petgraph::graph::NodeIndex::new(from),
        petgraph::graph::NodeIndex::new(to),
        None,
    )
}

} // verus!
