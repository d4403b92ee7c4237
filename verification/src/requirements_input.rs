//! Turning the requirements collected while the Steiner graph is built into `Requirements`:
//! their space nodes become Steiner nodes (those already terminals dropped, each once, in
//! increasing order), the dependent edges are grouped by source and requirement set, and each
//! group gets the chain of single parents above its source.
use crate::bitset::{bit_at, bitset_bits, bitset_contains};
use crate::graph::{
    edge_endpoints, edge_source, edge_target, edge_weight, edges_directed, graph_edge_order, graph_edges, graph_node_count, listed_edges,
    node_bound, weight_of,
};
use crate::requirements::{FreeRequirementByNode, IdRange, Requirements, RequirementsByEdge};
use crate::steiner_tree::SteinerTree;
use petgraph::Graph;
use vstd::prelude::*;

verus! {

/// The Steiner nodes of the space nodes `space_nodes`, by `map`, that are not terminals yet.
pub open spec fn required_node_set(space_nodes: Seq<usize>, map: Seq<usize>, tree: SteinerTree) -> Set<usize> {
    Set::new(
        |n: usize|
            exists|k: int|
                0 <= k < space_nodes.len() && map[space_nodes[k] as int] == n && !bit_at(tree.is_terminal, n as int),
    )
}

/// The items are strictly increasing.
pub open spec fn strictly_increasing(s: Seq<usize>) -> bool {
    forall|i: int, j: int| 0 <= i < j < s.len() ==> s[i] < s[j]
}

/// Inserts `x` into the strictly increasing `s` unless it is there already.
fn insert_sorted_unique(s: &mut Vec<usize>, x: usize)
    requires
        strictly_increasing(old(s)@),
    ensures
        strictly_increasing(final(s)@),
        final(s)@.to_set() == old(s)@.to_set().insert(x),
        final(s)@.len() <= old(s)@.len() + 1,
{
    let mut j: usize = 0;
    while j < s.len() && s[j] < x
        invariant
            j <= s@.len(),
            forall|i: int| 0 <= i < j ==> s@[i] < x,
        decreases s@.len() - j,
    {
        j = j + 1;
    }
    if j < s.len() && s[j] == x {
        proof {
            assert(s@.to_set().insert(x) =~= s@.to_set());
        }
        return;
    }
    let ghost before = s@;
    s.insert(j, x);
    proof {
        assert forall|a: int, b: int| 0 <= a < b < s@.len() implies s@[a] < s@[b] by {
            if b < j {
                assert(s@[a] == before[a] && s@[b] == before[b]);
            } else if b == j {
                assert(s@[a] == before[a]);
            } else if a == j {
                assert(s@[b] == before[b - 1]);
                assert(before[j as int] > x);
                if b - 1 > j {
                    assert(before[j as int] < before[b - 1]);
                }
            } else if a < j {
                assert(s@[a] == before[a] && s@[b] == before[b - 1]);
            } else {
                assert(s@[a] == before[a - 1] && s@[b] == before[b - 1]);
            }
        }
        assert forall|y: usize| s@.to_set().contains(y) <==> before.to_set().insert(x).contains(y) by {
            if s@.contains(y) {
                let k = choose|k: int| 0 <= k < s@.len() && s@[k] == y;
                if k < j {
                    assert(before[k] == y);
                } else if k > j {
                    assert(before[k - 1] == y);
                }
            }
            if before.contains(y) {
                let k = choose|k: int| 0 <= k < before.len() && before[k] == y;
                if k < j {
                    assert(s@[k] == y);
                } else {
                    assert(s@[k + 1] == y);
                }
            }
            if y == x {
                assert(s@[j as int] == x);
            }
        }
        assert(s@.to_set() =~= before.to_set().insert(x));
    }
}

/// Appends to `required_nodes` the Steiner nodes of the space nodes of `ids` (`required_node_set`),
/// each once, in increasing order, and returns their range.
fn extend_required_nodes(
    required_nodes: &mut Vec<usize>,
    required_space_nodes: &Vec<usize>,
    ids: IdRange,
    map: &Vec<usize>,
    tree: &SteinerTree,
) -> (r: IdRange)
    requires
        ids.fits(required_space_nodes@.len() as nat),
        forall|k: int|
            0 <= k < required_space_nodes@.len() ==> #[trigger] required_space_nodes@[k] < map@.len()
                && map@[required_space_nodes@[k] as int] < bitset_bits(tree.is_terminal).len(),
    ensures
        r.start == old(required_nodes)@.len(),
        r.fits(final(required_nodes)@.len() as nat),
        final(required_nodes)@.subrange(0, r.start as int) == old(required_nodes)@,
        r.end == final(required_nodes)@.len(),
        strictly_increasing(r.of(final(required_nodes)@)),
        r.of(final(required_nodes)@).to_set() == required_node_set(ids.of(required_space_nodes@), map@, *tree),
        forall|k: int|
            r.start <= k < r.end ==> #[trigger] final(required_nodes)@[k] < bitset_bits(tree.is_terminal).len(),
{
    let mut buffer: Vec<usize> = Vec::new();
    let mut k = ids.start;
    while k < ids.end
        invariant
            ids.start <= k <= ids.end,
            ids.end <= required_space_nodes@.len(),
            forall|j: int|
                0 <= j < required_space_nodes@.len() ==> #[trigger] required_space_nodes@[j] < map@.len()
                    && map@[required_space_nodes@[j] as int] < bitset_bits(tree.is_terminal).len(),
            strictly_increasing(buffer@),
            forall|j: int| 0 <= j < buffer@.len() ==> #[trigger] buffer@[j] < bitset_bits(tree.is_terminal).len(),
            buffer@.len() <= k - ids.start,
            buffer@.to_set() == required_node_set(
                required_space_nodes@.subrange(ids.start as int, k as int),
                map@,
                *tree,
            ),
        decreases ids.end - k,
    {
        let n = map[required_space_nodes[k]];
        let ghost prev = required_space_nodes@.subrange(ids.start as int, k as int);
        let ghost next = required_space_nodes@.subrange(ids.start as int, k + 1);
        assert(next =~= prev.push(required_space_nodes@[k as int]));
        if !bitset_contains(&tree.is_terminal, n) {
            let ghost old_buffer = buffer@;
            insert_sorted_unique(&mut buffer, n);
            proof {
                assert forall|j: int| 0 <= j < buffer@.len() implies #[trigger] buffer@[j] < bitset_bits(tree.is_terminal).len() by {
                    assert(buffer@.to_set().contains(buffer@[j]));
                    if buffer@[j] != n {
                        assert(old_buffer.to_set().contains(buffer@[j]));
                        let i = choose|i: int| 0 <= i < old_buffer.len() && old_buffer[i] == buffer@[j];
                    }
                }
                assert(required_node_set(next, map@, *tree) =~= required_node_set(prev, map@, *tree).insert(n)) by {
                    assert(next[prev.len() as int] == required_space_nodes@[k as int]);
                    assert forall|m: usize| required_node_set(next, map@, *tree).contains(m) implies required_node_set(
                        prev,
                        map@,
                        *tree,
                    ).insert(n).contains(m) by {
                        let j = choose|j: int|
                            0 <= j < next.len() && map@[next[j] as int] == m && !bit_at(tree.is_terminal, m as int);
                        if j < prev.len() {
                            assert(next[j] == prev[j]);
                        }
                    }
                    assert forall|m: usize| required_node_set(prev, map@, *tree).insert(n).contains(m) implies required_node_set(
                        next,
                        map@,
                        *tree,
                    ).contains(m) by {
                        if m != n {
                            let j = choose|j: int|
                                0 <= j < prev.len() && map@[prev[j] as int] == m && !bit_at(tree.is_terminal, m as int);
                            assert(next[j] == prev[j]);
                        } else {
                            assert(map@[next[prev.len() as int] as int] == m);
                        }
                    }
                }
            }
        } else {
            proof {
                assert(required_node_set(next, map@, *tree) =~= required_node_set(prev, map@, *tree)) by {
                    assert forall|m: usize| required_node_set(next, map@, *tree).contains(m) implies required_node_set(
                        prev,
                        map@,
                        *tree,
                    ).contains(m) by {
                        let j = choose|j: int|
                            0 <= j < next.len() && map@[next[j] as int] == m && !bit_at(tree.is_terminal, m as int);
                        if j < prev.len() {
                            assert(next[j] == prev[j]);
                        }
                    }
                    assert forall|m: usize| required_node_set(prev, map@, *tree).contains(m) implies required_node_set(
                        next,
                        map@,
                        *tree,
                    ).contains(m) by {
                        let j = choose|j: int|
                            0 <= j < prev.len() && map@[prev[j] as int] == m && !bit_at(tree.is_terminal, m as int);
                        assert(next[j] == prev[j]);
                    }
                }
            }
        }
        k = k + 1;
    }
    let start = required_nodes.len();
    let ghost before = required_nodes@;
    let mut i: usize = 0;
    while i < buffer.len()
        invariant
            i <= buffer@.len(),
            start == before.len(),
            required_nodes@ == before + buffer@.subrange(0, i as int),
            forall|j: int| 0 <= j < buffer@.len() ==> #[trigger] buffer@[j] < bitset_bits(tree.is_terminal).len(),
        decreases buffer@.len() - i,
    {
        required_nodes.push(buffer[i]);
        proof {
            assert(buffer@.subrange(0, i + 1) =~= buffer@.subrange(0, i as int).push(buffer@[i as int]));
        }
        i = i + 1;
    }
    let r = IdRange { start, end: required_nodes.len() };
    proof {
        assert(buffer@.subrange(0, i as int) =~= buffer@);
        assert(r.of(required_nodes@) =~= buffer@);
        assert(required_nodes@.subrange(0, start as int) =~= before);
    }
    r
}


/// The edge into `n` when it is the only one.
pub open spec fn single_parent_edge(g: Graph<(), u32>, n: usize) -> Option<usize> {
    let l = listed_edges(g, graph_edge_order(g), n, true);
    if l.len() == 1 {
        Some(l[0])
    } else {
        None
    }
}

/// The edges climbed from `n` while the node reached has a single parent, at most `fuel` of
/// them.
pub open spec fn parent_chain(g: Graph<(), u32>, n: usize, fuel: nat) -> Seq<usize>
    decreases fuel,
{
    if fuel == 0 {
        Seq::empty()
    } else {
        match single_parent_edge(g, n) {
            Some(e) => seq![e] + parent_chain(g, edge_source(g, e as int), (fuel - 1) as nat),
            None => Seq::empty(),
        }
    }
}

/// Every edge listed into `n` goes into `n`.
proof fn lemma_listed_into(g: Graph<(), u32>, order: Seq<usize>, n: usize)
    ensures
        forall|k: int|
            0 <= k < listed_edges(g, order, n, true).len() ==> edge_target(g, #[trigger] listed_edges(g, order, n, true)[k] as int)
                == n,
    decreases order.len(),
{
    if order.len() > 0 {
        lemma_listed_into(g, order.drop_last(), n);
        let rest = listed_edges(g, order.drop_last(), n, true);
        let l = listed_edges(g, order, n, true);
        assert forall|k: int| 0 <= k < l.len() implies edge_target(g, #[trigger] l[k] as int) == n by {
            if edge_target(g, order.last() as int) == n {
                if k > 0 {
                    assert(l[k] == rest[k - 1]);
                }
            } else {
                assert(l[k] == rest[k]);
            }
        }
    }
}

/// Law: the edges climbed from `n` are edges into single-parent nodes: the first goes into `n`,
/// each next one into the source of the one before, and each is the only edge into its target;
/// the climb stops, before its fuel runs out, only at a node that has no parent or several.
pub proof fn law_parent_chain_single_parents(g: Graph<(), u32>, n: usize, fuel: nat)
    ensures
        ({
            let c = parent_chain(g, n, fuel);
            &&& c.len() <= fuel
            &&& c.len() > 0 ==> edge_target(g, c[0] as int) == n
            &&& forall|k: int|
                0 <= k < c.len() ==> listed_edges(g, graph_edge_order(g), edge_target(g, #[trigger] c[k] as int), true)
                    == seq![c[k]]
            &&& forall|k: int|
                0 <= k < c.len() - 1 ==> edge_target(g, #[trigger] c[k + 1] as int) == edge_source(g, c[k] as int)
            &&& c.len() < fuel ==> listed_edges(
                g,
                graph_edge_order(g),
                if c.len() == 0 {
                    n
                } else {
                    edge_source(g, c[c.len() - 1] as int)
                },
                true,
            ).len() != 1
        }),
    decreases fuel,
{
    let c = parent_chain(g, n, fuel);
    let l = listed_edges(g, graph_edge_order(g), n, true);
    if fuel > 0 && l.len() == 1 {
        let e = l[0];
        let p = edge_source(g, e as int);
        law_parent_chain_single_parents(g, p, (fuel - 1) as nat);
        lemma_listed_into(g, graph_edge_order(g), n);
        let rest = parent_chain(g, p, (fuel - 1) as nat);
        assert(c == seq![e] + rest);
        assert(edge_target(g, e as int) == n);
        assert(l =~= seq![e]);
        assert forall|k: int| 0 <= k < c.len() implies listed_edges(
            g,
            graph_edge_order(g),
            edge_target(g, #[trigger] c[k] as int),
            true,
        ) == seq![c[k]] by {
            if k > 0 {
                assert(c[k] == rest[k - 1]);
            }
        }
        assert forall|k: int| 0 <= k < c.len() - 1 implies edge_target(g, #[trigger] c[k + 1] as int) == edge_source(
            g,
            c[k] as int,
        ) by {
            if k > 0 {
                let j = k - 1;
                assert(c[k] == rest[j]);
                assert(c[k + 1] == rest[j + 1]);
                assert(edge_target(g, rest[j + 1] as int) == edge_source(g, rest[j] as int));
            } else {
                assert(c[0] == e);
                assert(c[1] == rest[0]);
            }
        }
        if c.len() < fuel && rest.len() > 0 {
            assert(c[c.len() - 1] == rest[rest.len() - 1]);
        }
    }
}

/// Appends to `out` the edges climbed from `source` through single parents (at most as many as
/// the graph has nodes, which on a graph without cycles is the whole climb), and returns their
/// range: the edges taken anyway to reach `source`.
fn extend_unavoidable_parent_edges(out: &mut Vec<usize>, graph: &Graph<(), u32>, source: usize) -> (r: IdRange)
    requires
        source < graph_node_count(*graph),
    ensures
        r.start == old(out)@.len(),
        r.start <= r.end,
        r.end == final(out)@.len(),
        final(out)@.subrange(0, r.start as int) == old(out)@,
        r.of(final(out)@) == parent_chain(*graph, source, graph_node_count(*graph)),
        r.end - r.start <= graph_node_count(*graph),
        forall|k: int| r.start <= k < r.end ==> #[trigger] final(out)@[k] < graph_edges(*graph).len(),
        r.start < r.end ==> edge_target(*graph, final(out)@[r.start as int] as int) == source,
        forall|k: int|
            r.start <= k < r.end ==> listed_edges(
                *graph,
                graph_edge_order(*graph),
                edge_target(*graph, #[trigger] final(out)@[k] as int),
                true,
            ) == seq![final(out)@[k]],
        forall|k: int|
            r.start <= k < r.end - 1 ==> edge_target(*graph, #[trigger] final(out)@[k + 1] as int) == edge_source(
                *graph,
                final(out)@[k] as int,
            ),
        r.end - r.start < graph_node_count(*graph) ==> listed_edges(
            *graph,
            graph_edge_order(*graph),
            if r.start == r.end {
                source
            } else {
                edge_source(*graph, final(out)@[r.end - 1] as int)
            },
            true,
        ).len() != 1,
{
    let start = out.len();
    let ghost before = out@;
    let ghost total = parent_chain(*graph, source, graph_node_count(*graph));
    let mut fuel = node_bound(graph);
    let mut x = source;
    while fuel > 0
        invariant
            fuel <= graph_node_count(*graph),
            x < graph_node_count(*graph),
            start == before.len(),
            out@.subrange(0, start as int) == before,
            out@.len() == start + (graph_node_count(*graph) - fuel),
            total == out@.subrange(start as int, out@.len() as int) + parent_chain(*graph, x, fuel as nat),
            forall|k: int| start <= k < out@.len() ==> #[trigger] out@[k] < graph_edges(*graph).len(),
        ensures
            out@.subrange(0, start as int) == before,
            out@.len() <= start + graph_node_count(*graph),
            total == out@.subrange(start as int, out@.len() as int),
            forall|k: int| start <= k < out@.len() ==> #[trigger] out@[k] < graph_edges(*graph).len(),
        decreases fuel,
    {
        let incoming = edges_directed(graph, x, true);
        if incoming.len() != 1 {
            proof {
                assert(parent_chain(*graph, x, fuel as nat) =~= Seq::<usize>::empty());
                assert(total =~= out@.subrange(start as int, out@.len() as int));
            }
            break;
        }
        let e = incoming[0];
        let (p, _) = edge_endpoints(graph, e).unwrap();
        let ghost seen = out@.subrange(start as int, out@.len() as int);
        out.push(e);
        proof {
            assert(out@.subrange(start as int, out@.len() as int) =~= seen.push(e));
            assert(seq![e] + parent_chain(*graph, p, (fuel - 1) as nat) == parent_chain(*graph, x, fuel as nat));
            assert(seen.push(e) + parent_chain(*graph, p, (fuel - 1) as nat) =~= seen + (seq![e] + parent_chain(
                *graph,
                p,
                (fuel - 1) as nat,
            )));
            assert(out@.subrange(0, start as int) =~= before);
        }
        x = p;
        fuel = fuel - 1;
        proof {
            if fuel == 0 {
                assert(parent_chain(*graph, x, 0) =~= Seq::<usize>::empty());
                assert(total =~= out@.subrange(start as int, out@.len() as int));
            }
        }
    }
    let r = IdRange { start, end: out.len() };
    proof {
        law_parent_chain_single_parents(*graph, source, graph_node_count(*graph));
        let c = parent_chain(*graph, source, graph_node_count(*graph));
        assert(r.of(out@) == c);
        assert forall|k: int| r.start <= k < r.end implies #[trigger] out@[k] == c[k - r.start] by {
            assert(r.of(out@)[k - r.start] == out@[k]);
        }
        if r.start < r.end {
            assert(out@[r.end - 1] == c[c.len() - 1]);
        }
        assert forall|k: int| r.start <= k < r.end - 1 implies edge_target(*graph, #[trigger] out@[k + 1] as int) == edge_source(
            *graph,
            out@[k] as int,
        ) by {
            let j = k - r.start;
            assert(out@[k + 1] == c[j + 1]);
            assert(out@[k] == c[j]);
            assert(edge_target(*graph, c[j + 1] as int) == edge_source(*graph, c[j] as int));
        }
    }
    r
}


/// A dependent edge collected while the Steiner graph is built: the space edge, its source, and
/// the range of the space nodes it requires.
#[derive(Clone, Copy, Debug, PartialEq, Eq)]
pub struct DependentEdgeWithDispensableRequirements {
    pub dependent_space_edge_source: usize,
    pub dependent_space_edge_id: usize,
    pub required_space_node_ids: IdRange,
}

/// Which space node and space edge each Steiner node and edge stands for, and where the space
/// nodes and space edges went in the Steiner graph (`u32::MAX` for a space node not reached yet,
/// `None` for a space edge left out).
pub struct SteinerInputMap {
    pub node_id_to_space_node_id: Vec<usize>,
    pub edge_id_to_space_edge_id: Vec<usize>,
    pub space_node_id_to_node_id: Vec<usize>,
    pub space_edge_id_to_edge_id: Vec<Option<usize>>,
}

/// What dependent edges are grouped by: their source and their requirement range.
pub open spec fn item_key(d: DependentEdgeWithDispensableRequirements) -> (usize, usize, usize) {
    (d.dependent_space_edge_source, d.required_space_node_ids.start, d.required_space_node_ids.end)
}

/// The order of keys: by source, then by range.
pub open spec fn key_lt(a: (usize, usize, usize), b: (usize, usize, usize)) -> bool {
    a.0 < b.0 || (a.0 == b.0 && (a.1 < b.1 || (a.1 == b.1 && a.2 < b.2)))
}

fn key_lt_exec(a: (usize, usize, usize), b: (usize, usize, usize)) -> (r: bool)
    ensures
        r == key_lt(a, b),
{
    a.0 < b.0 || (a.0 == b.0 && (a.1 < b.1 || (a.1 == b.1 && a.2 < b.2)))
}

/// The Steiner edge of a space edge that the map keeps.
pub open spec fn mapped_edge(edge_map: Seq<Option<usize>>, space_edge: usize) -> usize {
    match edge_map[space_edge as int] {
        Some(e) => e,
        None => 0,
    }
}

/// The dependent edges among `items` with key `key`, in order, each as its Steiner edge and the
/// weight of that edge.
pub open spec fn dependents_of(
    items: Seq<DependentEdgeWithDispensableRequirements>,
    key: (usize, usize, usize),
    edge_map: Seq<Option<usize>>,
    g: Graph<(), u32>,
) -> Seq<(usize, u32)>
    decreases items.len(),
{
    if items.len() == 0 {
        Seq::empty()
    } else {
        let prev = dependents_of(items.drop_last(), key, edge_map, g);
        let d = items.last();
        if item_key(d) == key {
            let e = mapped_edge(edge_map, d.dependent_space_edge_id);
            prev.push((e, edge_weight(g, e as int)))
        } else {
            prev
        }
    }
}

/// `grp` is the group of the dependent edges with key `key`, over the lists it points into:
/// their requirement range, its Steiner nodes, those edges, and the single parents above the
/// source.
pub open spec fn group_matches(
    grp: RequirementsByEdge,
    key: (usize, usize, usize),
    required_nodes: Seq<usize>,
    deps: Seq<(usize, u32)>,
    parents: Seq<usize>,
    required_space_nodes: Seq<usize>,
    items: Seq<DependentEdgeWithDispensableRequirements>,
    map: SteinerInputMap,
    g: Graph<(), u32>,
    tree: SteinerTree,
) -> bool {
    let ids = IdRange { start: key.1, end: key.2 };
    &&& grp.required_space_node_ids == ids
    &&& grp.required_node_ids.fits(required_nodes.len())
    &&& strictly_increasing(grp.required_node_ids.of(required_nodes))
    &&& grp.required_node_ids.of(required_nodes).to_set() == required_node_set(
        ids.of(required_space_nodes),
        map.space_node_id_to_node_id@,
        tree,
    )
    &&& grp.dependent_edge_with_inherent_weight_ids.fits(deps.len())
    &&& grp.dependent_edge_with_inherent_weight_ids.of(deps) == dependents_of(items, key, map.space_edge_id_to_edge_id@, g)
    &&& grp.unavoidable_parent_edge_ids.fits(parents.len())
    &&& grp.unavoidable_parent_edge_ids.of(parents) == parent_chain(
        g,
        map.space_node_id_to_node_id@[key.0 as int],
        graph_node_count(g),
    )
}

/// `f` is the free requirement `entry`, its space nodes turned into Steiner nodes.
pub open spec fn free_matches(
    f: FreeRequirementByNode,
    entry: (usize, IdRange),
    required_nodes: Seq<usize>,
    required_space_nodes: Seq<usize>,
    map: SteinerInputMap,
    tree: SteinerTree,
) -> bool {
    &&& f.node_id == entry.0
    &&& f.required_space_node_ids == entry.1
    &&& f.required_node_ids.fits(required_nodes.len())
    &&& strictly_increasing(f.required_node_ids.of(required_nodes))
    &&& f.required_node_ids.of(required_nodes).to_set() == required_node_set(
        entry.1.of(required_space_nodes),
        map.space_node_id_to_node_id@,
        tree,
    )
}

/// The groups of `r` are those of the keys `keys`: every key of `items`, once each, in
/// increasing order.
pub open spec fn groups_keyed(
    r: Requirements,
    keys: Seq<(usize, usize, usize)>,
    items: Seq<DependentEdgeWithDispensableRequirements>,
    map: SteinerInputMap,
    g: Graph<(), u32>,
    tree: SteinerTree,
) -> bool {
    &&& keys.len() == r.requirements_by_edge@.len()
    &&& forall|i: int, j: int| 0 <= i < j < keys.len() ==> key_lt(#[trigger] keys[i], #[trigger] keys[j])
    &&& forall|i: int| 0 <= i < keys.len() ==> exists|j: int| 0 <= j < items.len() && item_key(items[j]) == #[trigger] keys[i]
    &&& forall|j: int| 0 <= j < items.len() ==> keys.contains(item_key(#[trigger] items[j]))
    &&& forall|k: int|
        0 <= k < keys.len() ==> group_matches(
            #[trigger] r.requirements_by_edge@[k],
            keys[k],
            r.required_nodes@,
            r.dependent_edges_with_inherent_weight@,
            r.unavoidable_parent_edges@,
            r.required_space_nodes@,
            items,
            map,
            g,
            tree,
        )
}

/// A range within a prefix reads the same in the longer list.
proof fn lemma_of_prefix<T>(old: Seq<T>, new: Seq<T>, r: IdRange)
    requires
        old.len() <= new.len(),
        new.subrange(0, old.len() as int) == old,
        r.fits(old.len()),
    ensures
        r.fits(new.len()),
        r.of(new) == r.of(old),
{
    assert(r.of(new) =~= r.of(old)) by {
        assert forall|i: int| 0 <= i < r.of(new).len() implies r.of(new)[i] == r.of(old)[i] by {
            assert(new.subrange(0, old.len() as int)[r.start + i] == new[r.start + i]);
        }
    }
}

/// What the inputs of `build_requirements` must hold: every id refers to what exists, every
/// range fits the required space nodes, and every dependent edge is in the Steiner graph.
pub open spec fn build_inputs_fit(
    graph: Graph<(), u32>,
    tree: SteinerTree,
    map: SteinerInputMap,
    free: Seq<(usize, IdRange)>,
    items: Seq<DependentEdgeWithDispensableRequirements>,
    required_space_nodes: Seq<usize>,
) -> bool {
    &&& tree.wf(graph)
    &&& forall|k: int|
        0 <= k < required_space_nodes.len() ==> #[trigger] required_space_nodes[k] < map.space_node_id_to_node_id@.len()
            && map.space_node_id_to_node_id@[required_space_nodes[k] as int] < graph_node_count(graph)
    &&& forall|i: int| 0 <= i < free.len() ==> (#[trigger] free[i]).0 < graph_node_count(graph) && free[i].1.fits(required_space_nodes.len())
    &&& forall|i: int|
        0 <= i < items.len() ==> {
            let d = #[trigger] items[i];
            &&& d.dependent_space_edge_source < map.space_node_id_to_node_id@.len()
            &&& map.space_node_id_to_node_id@[d.dependent_space_edge_source as int] < graph_node_count(graph)
            &&& d.dependent_space_edge_id < map.space_edge_id_to_edge_id@.len()
            &&& map.space_edge_id_to_edge_id@[d.dependent_space_edge_id as int] matches Some(e) && e < graph_edges(graph).len()
            &&& d.required_space_node_ids.fits(required_space_nodes.len())
        }
}


/// Whether `k` comes after `prev` (every key does when there is none).
pub open spec fn after_key(prev: Option<(usize, usize, usize)>, k: (usize, usize, usize)) -> bool {
    match prev {
        None => true,
        Some(p) => key_lt(p, k),
    }
}

/// The measures of the walk over keys: each key after `prev` lowers them lexicographically.
pub open spec fn key_measure(prev: Option<(usize, usize, usize)>, i: int) -> int {
    match prev {
        None => if i == 0 {
            usize::MAX + 1
        } else {
            0
        },
        Some(p) => if i == 0 {
            usize::MAX - p.0
        } else if i == 1 {
            usize::MAX - p.1
        } else {
            usize::MAX - p.2
        },
    }
}

/// The requirements collected while the Steiner graph is built: the free ones (with the node
/// they belong to), the dependent edges, and the space nodes that their ranges point into.
pub struct DispensableRequirementsBuilder {
    pub free: Vec<(usize, IdRange)>,
    pub dispensable: Vec<DependentEdgeWithDispensableRequirements>,
    pub required_space_nodes: Vec<usize>,
    /// The distinct requirement ranges kept so far, each sorted, so that equal requirements
    /// share one range.
    pub interner: Vec<IdRange>,
}

impl DispensableRequirementsBuilder {
    /// Nothing collected yet.
    pub fn new() -> (r: Self)
        ensures
            r.free@.len() == 0,
            r.dispensable@.len() == 0,
            r.required_space_nodes@.len() == 0,
            r.interner@.len() == 0,
    {
        DispensableRequirementsBuilder {
            free: Vec::new(),
            dispensable: Vec::new(),
            required_space_nodes: Vec::new(),
            interner: Vec::new(),
        }
    }

    /// Turns the requirements collected into `Requirements` for `graph`. Each free requirement
    /// keeps its node and space nodes, with their Steiner nodes (by `map`) that are not terminals of
    /// `tree` yet, each once, in increasing order. The dependent edges are grouped by source and
    /// requirement range, one group per such key, in increasing key order; a group holds its edges
    /// with their weights, the Steiner nodes of its requirements, and the edges climbed from its
    /// source through single parents, which must be taken anyway to reach it.
    pub fn build(self, graph: &Graph<(), u32>, map: &SteinerInputMap, tree: &SteinerTree) -> (r: Requirements)
        requires
            build_inputs_fit(*graph, *tree, *map, self.free@, self.dispensable@, self.required_space_nodes@),
        ensures
            r.required_space_nodes@ == self.required_space_nodes@,
            r.free_requirements_by_node@.len() == self.free@.len(),
            forall|i: int|
                0 <= i < self.free@.len() ==> free_matches(
                    #[trigger] r.free_requirements_by_node@[i],
                    self.free@[i],
                    r.required_nodes@,
                    r.required_space_nodes@,
                    *map,
                    *tree,
                ),
            r.free_requirements_by_edge@.len() == 0,
            exists|keys: Seq<(usize, usize, usize)>| #[trigger] groups_keyed(r, keys, self.dispensable@, *map, *graph, *tree),
            r.wf(*graph),
    {
        let DispensableRequirementsBuilder { free, dispensable, required_space_nodes, .. } = self;
        let free = &free;
        let items = &dispensable;
        let ghost n = graph_node_count(*graph);
        let ghost rsn = required_space_nodes@;
        let mut required_nodes: Vec<usize> = Vec::new();
        let mut free_out: Vec<FreeRequirementByNode> = Vec::new();
        let mut i: usize = 0;
        while i < free.len()
            invariant
                i <= free@.len(),
                build_inputs_fit(*graph, *tree, *map, free@, items@, rsn),
                rsn == required_space_nodes@,
                n == graph_node_count(*graph),
                free_out@.len() == i,
                forall|k: int| 0 <= k < required_nodes@.len() ==> #[trigger] required_nodes@[k] < n,
                forall|j: int|
                    0 <= j < i ==> free_matches(#[trigger] free_out@[j], free@[j], required_nodes@, rsn, *map, *tree),
            decreases free@.len() - i,
        {
            let (node_id, ids) = free[i];
            assert(free@[i as int].1.fits(rsn.len()));
            let ghost before = required_nodes@;
            let rn = extend_required_nodes(&mut required_nodes, &required_space_nodes, ids, &map.space_node_id_to_node_id, tree);
            proof {
                assert forall|k: int| 0 <= k < required_nodes@.len() implies #[trigger] required_nodes@[k] < n by {
                    if k < before.len() {
                        assert(required_nodes@.subrange(0, before.len() as int)[k] == required_nodes@[k]);
                    }
                }
                assert forall|j: int| 0 <= j < i implies free_matches(
                    #[trigger] free_out@[j],
                    free@[j],
                    required_nodes@,
                    rsn,
                    *map,
                    *tree,
                ) by {
                    lemma_of_prefix(before, required_nodes@, free_out@[j].required_node_ids);
                }
            }
            free_out.push(FreeRequirementByNode { node_id, required_node_ids: rn, required_space_node_ids: ids });
            i = i + 1;
        }
        let mut deps: Vec<(usize, u32)> = Vec::new();
        let mut parents: Vec<usize> = Vec::new();
        let mut groups: Vec<RequirementsByEdge> = Vec::new();
        let ghost mut keys: Seq<(usize, usize, usize)> = Seq::empty();
        let mut prev: Option<(usize, usize, usize)> = None;
        loop
            invariant
                build_inputs_fit(*graph, *tree, *map, free@, items@, rsn),
                rsn == required_space_nodes@,
                n == graph_node_count(*graph),
                free_out@.len() == free@.len(),
                forall|k: int| 0 <= k < required_nodes@.len() ==> #[trigger] required_nodes@[k] < n,
                forall|k: int| 0 <= k < deps@.len() ==> #[trigger] deps@[k].0 < graph_edges(*graph).len(),
                forall|k: int| 0 <= k < parents@.len() ==> #[trigger] parents@[k] < graph_edges(*graph).len(),
                forall|j: int|
                    0 <= j < free@.len() ==> free_matches(#[trigger] free_out@[j], free@[j], required_nodes@, rsn, *map, *tree),
                keys.len() == groups@.len(),
                prev == if keys.len() == 0 {
                    None
                } else {
                    Some(keys.last())
                },
                forall|a: int, b: int| 0 <= a < b < keys.len() ==> key_lt(#[trigger] keys[a], #[trigger] keys[b]),
                forall|a: int| 0 <= a < keys.len() ==> exists|j: int| 0 <= j < items@.len() && item_key(items@[j]) == #[trigger] keys[a],
                forall|j: int| 0 <= j < items@.len() && !after_key(prev, item_key(#[trigger] items@[j])) ==> keys.contains(item_key(items@[j])),
                forall|k: int|
                    0 <= k < keys.len() ==> group_matches(
                        #[trigger] groups@[k],
                        keys[k],
                        required_nodes@,
                        deps@,
                        parents@,
                        rsn,
                        items@,
                        *map,
                        *graph,
                        *tree,
                    ),
            ensures
                forall|j: int| 0 <= j < items@.len() ==> !after_key(prev, item_key(#[trigger] items@[j])),
            decreases key_measure(prev, 0), key_measure(prev, 1), key_measure(prev, 2),
        {
            let mut best: Option<(usize, usize, usize)> = None;
            let ghost mut best_j: int = 0;
            let mut j: usize = 0;
            while j < items.len()
                invariant
                    j <= items@.len(),
                    best matches Some(b) ==> (0 <= best_j < j && item_key(items@[best_j]) == b && after_key(prev, b)),
                    forall|jj: int|
                        0 <= jj < j && after_key(prev, item_key(#[trigger] items@[jj])) ==> (best matches Some(b) && !key_lt(
                            item_key(items@[jj]),
                            b,
                        )),
                decreases items@.len() - j,
            {
                let d = items[j];
                let k = (d.dependent_space_edge_source, d.required_space_node_ids.start, d.required_space_node_ids.end);
                let is_after = match prev {
                    None => true,
                    Some(p) => key_lt_exec(p, k),
                };
                if is_after {
                    let better = match best {
                        None => true,
                        Some(b) => key_lt_exec(k, b),
                    };
                    if better {
                        best = Some(k);
                        proof {
                            best_j = j as int;
                        }
                    }
                }
                j = j + 1;
            }
            let kk = match best {
                None => {
                    assert forall|jj: int| 0 <= jj < items@.len() implies !after_key(prev, item_key(#[trigger] items@[jj])) by {
                    }
                    break;
                },
                Some(kk) => kk,
            };
            assert(items@[best_j].required_space_node_ids.fits(rsn.len()));
            assert(items@[best_j].dependent_space_edge_source < map.space_node_id_to_node_id@.len());
            let ids = IdRange { start: kk.1, end: kk.2 };
            let ghost nodes_before = required_nodes@;
            let rn = extend_required_nodes(&mut required_nodes, &required_space_nodes, ids, &map.space_node_id_to_node_id, tree);
            let dstart = deps.len();
            let ghost deps_before = deps@;
            let mut j: usize = 0;
            while j < items.len()
                invariant
                    j <= items@.len(),
                    build_inputs_fit(*graph, *tree, *map, free@, items@, rsn),
                    dstart == deps_before.len(),
                    deps@ == deps_before + dependents_of(items@.take(j as int), kk, map.space_edge_id_to_edge_id@, *graph),
                    forall|k: int| 0 <= k < deps@.len() ==> #[trigger] deps@[k].0 < graph_edges(*graph).len(),
                decreases items@.len() - j,
            {
                let d = items[j];
                assert(items@.take(j + 1).drop_last() =~= items@.take(j as int));
                assert(items@.take(j + 1).last() == items@[j as int]);
                if d.dependent_space_edge_source == kk.0 && d.required_space_node_ids.start == kk.1
                    && d.required_space_node_ids.end == kk.2 {
                    assert(items@[j as int] == d);
                    let e = match map.space_edge_id_to_edge_id[d.dependent_space_edge_id] {
                        Some(e) => e,
                        None => 0,
                    };
                    let w = weight_of(graph, e);
                    let ghost dd = deps@;
                    deps.push((e, w));
                    proof {
                        assert(deps@ =~= deps_before + dependents_of(items@.take(j + 1), kk, map.space_edge_id_to_edge_id@, *graph));
                    }
                } else {
                    proof {
                        assert(item_key(d) != kk);
                    }
                }
                j = j + 1;
            }
            assert(items@.take(items@.len() as int) =~= items@);
            let parents_before_len = parents.len();
            let ghost parents_before = parents@;
            let par = extend_unavoidable_parent_edges(&mut parents, graph, map.space_node_id_to_node_id[kk.0]);
            let grp = RequirementsByEdge {
                unavoidable_parent_edge_ids: par,
                required_space_node_ids: ids,
                required_node_ids: rn,
                dependent_edge_with_inherent_weight_ids: IdRange { start: dstart, end: deps.len() },
            };
            proof {
                assert forall|k: int| 0 <= k < required_nodes@.len() implies #[trigger] required_nodes@[k] < n by {
                    if k < nodes_before.len() {
                        assert(required_nodes@.subrange(0, nodes_before.len() as int)[k] == required_nodes@[k]);
                    }
                }
                assert forall|k: int| 0 <= k < parents@.len() implies #[trigger] parents@[k] < graph_edges(*graph).len() by {
                    if k < parents_before.len() {
                        assert(parents@.subrange(0, parents_before.len() as int)[k] == parents@[k]);
                    }
                }
                assert(deps@.subrange(0, dstart as int) =~= deps_before);
                assert(IdRange { start: dstart, end: deps.len() }.of(deps@) =~= dependents_of(
                    items@,
                    kk,
                    map.space_edge_id_to_edge_id@,
                    *graph,
                ));
                assert forall|k: int|
                    0 <= k < keys.len() implies group_matches(
                    #[trigger] groups@[k],
                    keys[k],
                    required_nodes@,
                    deps@,
                    parents@,
                    rsn,
                    items@,
                    *map,
                    *graph,
                    *tree,
                ) by {
                    lemma_of_prefix(nodes_before, required_nodes@, groups@[k].required_node_ids);
                    lemma_of_prefix(deps_before, deps@, groups@[k].dependent_edge_with_inherent_weight_ids);
                    lemma_of_prefix(parents_before, parents@, groups@[k].unavoidable_parent_edge_ids);
                }
                assert forall|jj: int| 0 <= jj < free@.len() implies free_matches(
                    #[trigger] free_out@[jj],
                    free@[jj],
                    required_nodes@,
                    rsn,
                    *map,
                    *tree,
                ) by {
                    lemma_of_prefix(nodes_before, required_nodes@, free_out@[jj].required_node_ids);
                }
            }
            let ghost old_keys = keys;
            let ghost groups_before = groups@;
            groups.push(grp);
            proof {
                keys = keys.push(kk);
                assert forall|a: int, b: int| 0 <= a < b < keys.len() implies key_lt(#[trigger] keys[a], #[trigger] keys[b]) by {
                    if b == keys.len() - 1 && a < old_keys.len() {
                        assert(keys[a] == old_keys[a]);
                        if a < old_keys.len() - 1 {
                            assert(key_lt(old_keys[a], old_keys.last()));
                        }
                    } else if b < old_keys.len() {
                        assert(keys[a] == old_keys[a] && keys[b] == old_keys[b]);
                    }
                }
                assert forall|a: int| 0 <= a < keys.len() implies exists|j: int| 0 <= j < items@.len() && item_key(items@[j]) == #[trigger] keys[a] by {
                    if a < old_keys.len() {
                        assert(keys[a] == old_keys[a]);
                    } else {
                        assert(item_key(items@[best_j]) == keys[a]);
                    }
                }
                assert forall|j: int| 0 <= j < items@.len() && !after_key(Some(kk), item_key(#[trigger] items@[j])) implies keys.contains(
                    item_key(items@[j]),
                ) by {
                    let kj = item_key(items@[j]);
                    if !after_key(prev, kj) {
                        assert(old_keys.contains(kj));
                        let a = choose|a: int| 0 <= a < old_keys.len() && old_keys[a] == kj;
                        assert(keys[a] == kj);
                    } else {
                        assert(!key_lt(kj, kk));
                        assert(kj == kk);
                        assert(keys[keys.len() - 1] == kk);
                    }
                }
                assert forall|k: int|
                    0 <= k < keys.len() implies group_matches(
                    #[trigger] groups@[k],
                    keys[k],
                    required_nodes@,
                    deps@,
                    parents@,
                    rsn,
                    items@,
                    *map,
                    *graph,
                    *tree,
                ) by {
                    if k < old_keys.len() {
                        assert(groups@[k] == groups_before[k]);
                        assert(keys[k] == old_keys[k]);
                    } else {
                        assert(groups@[k] == grp);
                        assert(keys[k] == kk);
                        assert(grp.required_node_ids.fits(required_nodes@.len()));
                        assert(grp.dependent_edge_with_inherent_weight_ids.fits(deps@.len()));
                        assert(grp.unavoidable_parent_edge_ids.fits(parents@.len()));
                        assert(grp.dependent_edge_with_inherent_weight_ids.of(deps@) == dependents_of(
                            items@,
                            kk,
                            map.space_edge_id_to_edge_id@,
                            *graph,
                        ));
                    }
                }
            }
            prev = Some(kk);
        }
        let r = Requirements {
            free_requirements_by_node: free_out,
            free_requirements_by_edge: Vec::new(),
            requirements_by_edge: groups,
            required_nodes,
            required_space_nodes,
            unavoidable_parent_edges: parents,
            dependent_edges_with_inherent_weight: deps,
        };
        proof {
            assert(groups_keyed(r, keys, items@, *map, *graph, *tree)) by {
                assert forall|j: int| 0 <= j < items@.len() implies keys.contains(item_key(#[trigger] items@[j])) by {
                    assert(!after_key(prev, item_key(items@[j])));
                }
            }
        }
        r
    }

}

} // verus!
