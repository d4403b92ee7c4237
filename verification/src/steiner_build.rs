//! Step one of solving: the Steiner graph of a solution space, climbed from every indispensable
//! leaf field and then from every dispensable requirement, with its terminals, the tree to grow
//! over it (only the root so far) and the requirements grouped for the weight updates.
use crate::bitset::{bit_at, bitset_bits, bitset_insert, bitset_with_capacity, cleared_bits, seq_bit};
use crate::error::Error;
use crate::graph::{add_steiner_node, edge_bound, graph_edges, graph_node_count, new_steiner_graph, node_bound};
use crate::query::FieldFlags;
use crate::requirements::Requirements;
use crate::requirements_input::{build_inputs_fit, DispensableRequirementsBuilder, SteinerInputMap};
use crate::solution::SpaceEdge;
use crate::space_graph::{space_edge_count, space_edges, space_node, space_node_count, space_nodes, SpaceNode};
use crate::steiner_input::{requirements_fit, unmapped_have_parents, SteinerInputBuilder, NO_NODE};
use crate::steiner_tree::SteinerTree;
use fixedbitset::FixedBitSet;
use petgraph::Graph;
use vstd::prelude::*;

verus! {

/// A field that is indispensable and a leaf: a terminal from the start.
pub open spec fn is_indispensable_leaf(node: SpaceNode) -> bool {
    match node {
        SpaceNode::Field(f) => (f.flags.0 & FieldFlags::INDISPENSABLE == FieldFlags::INDISPENSABLE) && (f.flags.0
            & FieldFlags::LEAF_NODE == FieldFlags::LEAF_NODE),
        _ => false,
    }
}

/// The map of a space of `sn` nodes before any climb: only `root` is reached, as Steiner node 0.
pub open spec fn initial_map(sn: nat, root: usize) -> Seq<usize> {
    Seq::new(sn, |k: int| if k == root { 0usize } else { NO_NODE })
}

/// The Steiner graph of a solution space, the map between the two, the space nodes climbed from
/// as indispensable terminals, and the requirements.
pub struct SteinerInput {
    pub graph: Graph<(), u32>,
    pub root_node_id: usize,
    pub map: SteinerInputMap,
    pub space_node_is_terminal: FixedBitSet,
    pub requirements: Requirements,
}

/// Whether `x` is among the items of `v`.
fn holds(v: &Vec<usize>, x: usize) -> (r: bool)
    ensures
        r == v@.contains(x),
{
    let mut i: usize = 0;
    while i < v.len()
        invariant
            i <= v@.len(),
            forall|j: int| 0 <= j < i ==> v@[j] != x,
        decreases v@.len() - i,
    {
        if v[i] == x {
            return true;
        }
        i = i + 1;
    }
    false
}

/// Whether what `build` needs holds of the requirements collected: every range fits, every
/// required space node and dependent source is reached, every dependent edge is in the graph.
fn build_inputs_hold(
    graph: &Graph<(), u32>,
    tree: &SteinerTree,
    map: &SteinerInputMap,
    reqs: &DispensableRequirementsBuilder,
) -> (r: bool)
    requires
        tree.wf(*graph),
    ensures
        r ==> build_inputs_fit(*graph, *tree, *map, reqs.free@, reqs.dispensable@, reqs.required_space_nodes@),
{
    let n = node_bound(graph);
    let m = edge_bound(graph);
    let len = reqs.required_space_nodes.len();
    let nodes = &map.space_node_id_to_node_id;
    let edges = &map.space_edge_id_to_edge_id;
    let mut k: usize = 0;
    while k < len
        invariant
            k <= len,
            len == reqs.required_space_nodes@.len(),
            n == graph_node_count(*graph),
            forall|j: int|
                0 <= j < k ==> #[trigger] reqs.required_space_nodes@[j] < nodes@.len()
                    && nodes@[reqs.required_space_nodes@[j] as int] < n,
        decreases len - k,
    {
        let s = reqs.required_space_nodes[k];
        if s >= nodes.len() || nodes[s] >= n {
            return false;
        }
        k = k + 1;
    }
    let mut i: usize = 0;
    while i < reqs.free.len()
        invariant
            i <= reqs.free@.len(),
            len == reqs.required_space_nodes@.len(),
            n == graph_node_count(*graph),
            forall|j: int| 0 <= j < i ==> (#[trigger] reqs.free@[j]).0 < n && reqs.free@[j].1.fits(len as nat),
        decreases reqs.free@.len() - i,
    {
        let (node, ids) = reqs.free[i];
        if node >= n || !ids.fits_len(len) {
            return false;
        }
        i = i + 1;
    }
    let mut i: usize = 0;
    while i < reqs.dispensable.len()
        invariant
            i <= reqs.dispensable@.len(),
            len == reqs.required_space_nodes@.len(),
            n == graph_node_count(*graph),
            m == graph_edges(*graph).len(),
            forall|j: int|
                0 <= j < i ==> {
                    let d = #[trigger] reqs.dispensable@[j];
                    &&& d.dependent_space_edge_source < nodes@.len()
                    &&& nodes@[d.dependent_space_edge_source as int] < n
                    &&& d.dependent_space_edge_id < edges@.len()
                    &&& edges@[d.dependent_space_edge_id as int] matches Some(e) && e < m
                    &&& d.required_space_node_ids.fits(len as nat)
                },
        decreases reqs.dispensable@.len() - i,
    {
        let d = reqs.dispensable[i];
        if d.dependent_space_edge_source >= nodes.len() || nodes[d.dependent_space_edge_source] >= n
            || d.dependent_space_edge_id >= edges.len() || !d.required_space_node_ids.fits_len(len) {
            return false;
        }
        match edges[d.dependent_space_edge_id] {
            Some(e) => {
                if e >= m {
                    return false;
                }
            },
            None => {
                return false;
            },
        }
        i = i + 1;
    }
    true
}

/// Builds the Steiner graph of `space`, whose root is `space_root`, and the tree to grow over it.
///
/// The root becomes Steiner node 0. The indispensable leaf fields are climbed from, last first,
/// as indispensable terminals, and so are the requirements met on their own paths; each such
/// space node is flagged in `space_node_is_terminal`, and its Steiner node, unless it is the
/// root, becomes a terminal of the tree (each once). Then every dispensable requirement is
/// climbed from. The tree holds only the root, which counts as a terminal; the requirements
/// collected are grouped by `build`.
///
/// More indispensable climbs than there are space edges, or more dispensable ones than one per
/// space edge and one more, mean that requirements depend on each other in a cycle:
/// `RequirementCycleDetected`; so does a climb that goes round. `InternalError` comes when the
/// Steiner graph would outgrow `u32` indices, or when a requirement or its dependent edge was
/// left unreached.
pub fn build_input_and_terminals(space: &Graph<SpaceNode, SpaceEdge>, space_root: usize) -> (r: Result<
    (SteinerInput, SteinerTree),
    Error,
>)
    requires
        space_root < space_nodes(*space).len(),
        unmapped_have_parents(*space, initial_map(space_nodes(*space).len(), space_root)),
    ensures
        r matches Ok((input, tree)) ==> {
            let n = graph_node_count(input.graph);
            let map = input.map.space_node_id_to_node_id@;
            &&& input.root_node_id == 0
            &&& map[space_root as int] == 0
            &&& tree.wf(input.graph)
            &&& input.requirements.wf(input.graph)
            &&& bitset_bits(tree.nodes) == cleared_bits(n).update(0, true)
            &&& bitset_bits(tree.edges) == cleared_bits(graph_edges(input.graph).len())
            &&& tree.total_weight == 0
            &&& bit_at(tree.is_terminal, 0)
            &&& tree.terminals@.no_duplicates()
            &&& !tree.terminals@.contains(0usize)
            &&& forall|k: usize|
                k < n ==> (bit_at(tree.is_terminal, k as int) <==> (k == 0 || tree.terminals@.contains(k)))
            &&& forall|s: int|
                0 <= s < space_nodes(*space).len() && is_indispensable_leaf(space_nodes(*space)[s]) ==> bit_at(
                    input.space_node_is_terminal,
                    s,
                )
            &&& forall|s: int|
                0 <= s < space_nodes(*space).len() && bit_at(input.space_node_is_terminal, s) ==> map[s] != NO_NODE
                    && map[s] < n && bit_at(tree.is_terminal, map[s] as int)
        },
        r matches Err(e) ==> e is RequirementCycleDetected || e is InternalError,
{
    let sn = space_node_count(space);
    let se = space_edge_count(space);
    let mut graph = new_steiner_graph();
    let root = add_steiner_node(&mut graph);
    let mut space_node_id_to_node_id: Vec<usize> = Vec::new();
    let mut relative: Vec<u32> = Vec::new();
    let mut indispensable: Vec<usize> = Vec::new();
    let mut s: usize = 0;
    while s < sn
        invariant
            s <= sn,
            sn == space_nodes(*space).len(),
            space_root < sn,
            root == 0,
            space_node_id_to_node_id@ == initial_map(sn as nat, space_root).subrange(0, s as int),
            relative@.len() == s,
            forall|j: int| 0 <= j < indispensable@.len() ==> #[trigger] indispensable@[j] < s,
            forall|j: int| 0 <= j < s && is_indispensable_leaf(space_nodes(*space)[j]) ==> indispensable@.contains(j as usize),
        decreases sn - s,
    {
        space_node_id_to_node_id.push(if s == space_root { root } else { NO_NODE });
        relative.push(0);
        let ghost before = indispensable@;
        let keep = match space_node(space, s).as_query_field() {
            Some(f) => f.is_indispensable() && f.is_leaf(),
            None => false,
        };
        if keep {
            indispensable.push(s);
        }
        proof {
            assert(space_node_id_to_node_id@ =~= initial_map(sn as nat, space_root).subrange(0, s + 1));
            assert forall|j: int| 0 <= j < s + 1 && is_indispensable_leaf(space_nodes(*space)[j]) implies indispensable@.contains(
                j as usize,
            ) by {
                if j == s {
                    assert(indispensable@[indispensable@.len() - 1] == s);
                } else {
                    assert(before.contains(j as usize));
                    let q = choose|q: int| 0 <= q < before.len() && before[q] == j as usize;
                    assert(indispensable@[q] == j as usize);
                }
            }
        }
        s = s + 1;
    }
    assert(space_node_id_to_node_id@ =~= initial_map(sn as nat, space_root));
    let mut space_edge_id_to_edge_id: Vec<Option<usize>> = Vec::new();
    let mut e: usize = 0;
    while e < se
        invariant
            e <= se,
            space_edge_id_to_edge_id@.len() == e,
            forall|j: int| 0 <= j < e ==> #[trigger] space_edge_id_to_edge_id@[j] is None,
        decreases se - e,
    {
        space_edge_id_to_edge_id.push(None);
        e = e + 1;
    }
    let mut node_id_to_space_node_id: Vec<usize> = Vec::new();
    node_id_to_space_node_id.push(space_root);
    let mut builder = SteinerInputBuilder {
        graph,
        root_node_id: root,
        map: SteinerInputMap {
            node_id_to_space_node_id,
            edge_id_to_space_edge_id: Vec::new(),
            space_node_id_to_node_id,
            space_edge_id_to_edge_id,
        },
        indispensable_terminal_space_node_ids: indispensable,
        dispensable_terminal_space_node_ids: Vec::new(),
        nodes_to_process_stack: Vec::new(),
        space_node_path_stack: Vec::new(),
        space_node_relative_depth_weight_to_steiner_node: relative,
    };
    let mut requirements = DispensableRequirementsBuilder::new();
    let mut terminals: Vec<usize> = Vec::new();
    let mut space_node_is_terminal = bitset_with_capacity(sn);
    let mut i: u64 = 0;
    while builder.indispensable_terminal_space_node_ids.len() > 0
        invariant
            builder.wf(*space),
            sn == space_nodes(*space).len(),
            se == space_edges(*space).len(),
            space_root < sn,
            root == 0,
            builder.root_node_id == root,
            builder.map.space_node_id_to_node_id@[space_root as int] == root,
            requirements_fit(requirements, sn as nat, se as nat, graph_node_count(builder.graph)),
            unmapped_have_parents(*space, builder.map.space_node_id_to_node_id@),
            builder.nodes_to_process_stack@.len() == 0,
            builder.space_node_path_stack@.len() == 0,
            i <= se + 1,
            se <= u32::MAX,
            bitset_bits(space_node_is_terminal).len() == sn,
            forall|j: int| 0 <= j < terminals@.len() ==> #[trigger] terminals@[j] < graph_node_count(builder.graph),
            terminals@.no_duplicates(),
            !terminals@.contains(root),
            forall|j: int|
                0 <= j < sn && #[trigger] is_indispensable_leaf(space_nodes(*space)[j])
                    ==> builder.indispensable_terminal_space_node_ids@.contains(j as usize) || bit_at(space_node_is_terminal, j),
            forall|j: int|
                0 <= j < sn && bit_at(space_node_is_terminal, j) ==> #[trigger] builder.map.space_node_id_to_node_id@[j]
                    != NO_NODE && (builder.map.space_node_id_to_node_id@[j] == root || terminals@.contains(
                    builder.map.space_node_id_to_node_id@[j],
                )),
        decreases se + 1 - i,
    {
        let ghost list = builder.indispensable_terminal_space_node_ids@;
        let t = builder.indispensable_terminal_space_node_ids.pop().unwrap();
        if i > se as u64 {
            return Err(Error::RequirementCycleDetected);
        }
        i = i + 1;
        let ghost bits_before = bitset_bits(space_node_is_terminal);
        assert(forall|j: int|
            0 <= j < sn && is_indispensable_leaf(space_nodes(*space)[j]) ==> list.contains(j as usize) || seq_bit(
                bits_before,
                j,
            ));
        bitset_insert(&mut space_node_is_terminal, t);
        let ghost map_before = builder.map.space_node_id_to_node_id@;
        let ghost terms_before = terminals@;
        let ghost rest = builder.indispensable_terminal_space_node_ids@;
        let node = match builder.ingest_nodes_from_terminal(space, &mut requirements, t, true) {
            Ok(node) => node,
            Err(e) => {
                return Err(e);
            },
        };
        if node != root {
            if !holds(&terminals, node) {
                terminals.push(node);
                assert(terminals@[terminals@.len() - 1] == node);
            }
            assert(terminals@.contains(node));
        }
        proof {
            let now = builder.indispensable_terminal_space_node_ids@;
            assert forall|j: int|
                0 <= j < sn && is_indispensable_leaf(space_nodes(*space)[j]) implies now.contains(j as usize) || bit_at(
                space_node_is_terminal,
                j,
            ) by {
                if j as usize != t && !bit_at(space_node_is_terminal, j) {
                    assert(!seq_bit(bits_before, j));
                    assert(list.contains(j as usize));
                    let q = choose|q: int| 0 <= q < list.len() && list[q] == j as usize;
                    assert(q < list.len() - 1);
                    assert(rest[q] == j as usize);
                    assert(now.subrange(0, rest.len() as int)[q] == j as usize);
                    assert(now[q] == j as usize);
                }
            }
            assert forall|j: int|
                0 <= j < sn && bit_at(space_node_is_terminal, j) implies #[trigger] builder.map.space_node_id_to_node_id@[j]
                != NO_NODE && (builder.map.space_node_id_to_node_id@[j] == root || terminals@.contains(
                builder.map.space_node_id_to_node_id@[j],
            )) by {
                if j as usize != t {
                    assert(seq_bit(bits_before, j));
                    assert(map_before[j] != NO_NODE);
                    assert(builder.map.space_node_id_to_node_id@[j] == map_before[j]);
                    let m = map_before[j];
                    if m != root {
                        assert(terms_before.contains(m));
                        let q = choose|q: int| 0 <= q < terms_before.len() && terms_before[q] == m;
                        assert(terminals@[q] == m);
                    }
                }
            }
        }
    }
    let mut fuel: u64 = se as u64 + 1;
    while builder.dispensable_terminal_space_node_ids.len() > 0
        invariant
            builder.wf(*space),
            sn == space_nodes(*space).len(),
            se == space_edges(*space).len(),
            space_root < sn,
            root == 0,
            builder.root_node_id == root,
            builder.map.space_node_id_to_node_id@[space_root as int] == root,
            requirements_fit(requirements, sn as nat, se as nat, graph_node_count(builder.graph)),
            unmapped_have_parents(*space, builder.map.space_node_id_to_node_id@),
            builder.nodes_to_process_stack@.len() == 0,
            builder.space_node_path_stack@.len() == 0,
            bitset_bits(space_node_is_terminal).len() == sn,
            forall|j: int| 0 <= j < terminals@.len() ==> #[trigger] terminals@[j] < graph_node_count(builder.graph),
            terminals@.no_duplicates(),
            !terminals@.contains(root),
            forall|j: int|
                0 <= j < sn && is_indispensable_leaf(space_nodes(*space)[j]) ==> bit_at(space_node_is_terminal, j),
            forall|j: int|
                0 <= j < sn && bit_at(space_node_is_terminal, j) ==> #[trigger] builder.map.space_node_id_to_node_id@[j]
                    != NO_NODE && (builder.map.space_node_id_to_node_id@[j] == root || terminals@.contains(
                    builder.map.space_node_id_to_node_id@[j],
                )),
        decreases fuel,
    {
        if fuel == 0 {
            return Err(Error::RequirementCycleDetected);
        }
        fuel = fuel - 1;
        let s = builder.dispensable_terminal_space_node_ids.pop().unwrap();
        match builder.ingest_nodes_from_terminal(space, &mut requirements, s, false) {
            Ok(_) => {},
            Err(e) => {
                return Err(e);
            },
        }
    }
    let mut tree = SteinerTree::new(&builder.graph, root, terminals);
    bitset_insert(&mut tree.is_terminal, root);
    if !build_inputs_hold(&builder.graph, &tree, &builder.map, &requirements) {
        return Err(Error::InternalError);
    }
    let requirements = requirements.build(&builder.graph, &builder.map, &tree);
    let SteinerInputBuilder { graph, root_node_id, map, .. } = builder;
    Ok((SteinerInput { graph, root_node_id, map, space_node_is_terminal, requirements }, tree))
}

} // verus!
