//! The Steiner tree being grown: its nodes, edges, weight and terminals.
use crate::bitset::{
    bit_at, bitset_bits, bitset_clear, bitset_clone_from, bitset_contains, bitset_insert, bitset_put,
    bitset_with_capacity, cleared_bits, seq_bit,
};
use crate::graph::{edge_bound, edge_source, edge_target, graph_edges, graph_node_count, node_bound};
use core::ops::ControlFlow;
use fixedbitset::FixedBitSet;
use petgraph::Graph;
use vstd::prelude::*;

verus! {

/// A (partial) Steiner tree over a Steiner graph: the nodes and edges already chosen, the weight
/// of the edges added since the tree was created or last reset, and the terminals to reach.
pub struct SteinerTree {
    pub nodes: FixedBitSet,
    pub edges: FixedBitSet,
    pub total_weight: u32,
    pub terminals: Vec<usize>,
    pub is_terminal: FixedBitSet,
}

/// Whether `new[k]` is added by `extend_terminals`: it is not a terminal yet, it does not occur
/// earlier in `new`, and it is not already a node of the tree.
pub open spec fn is_fresh_terminal(is_terminal: Seq<bool>, nodes: Seq<bool>, new: Seq<usize>, k: int) -> bool {
    &&& !seq_bit(is_terminal, new[k] as int)
    &&& !new.subrange(0, k).contains(new[k])
    &&& !seq_bit(nodes, new[k] as int)
}

/// The terminals that `extend_terminals(new)` appends, in the order of `new`.
pub open spec fn fresh_terminals(is_terminal: Seq<bool>, nodes: Seq<bool>, new: Seq<usize>) -> Seq<usize>
    decreases new.len(),
{
    if new.len() == 0 {
        Seq::empty()
    } else {
        let prev = fresh_terminals(is_terminal, nodes, new.drop_last());
        if is_fresh_terminal(is_terminal, nodes, new, new.len() - 1) {
            prev.push(new.last())
        } else {
            prev
        }
    }
}

/// `fresh_terminals` does not depend on the elements past a prefix.
proof fn lemma_fresh_terminals_prefix(is_terminal: Seq<bool>, nodes: Seq<bool>, new: Seq<usize>, k: int)
    requires
        0 <= k < new.len(),
    ensures
        fresh_terminals(is_terminal, nodes, new.subrange(0, k + 1)) == if is_fresh_terminal(
            is_terminal,
            nodes,
            new,
            k,
        ) {
            fresh_terminals(is_terminal, nodes, new.subrange(0, k)).push(new[k])
        } else {
            fresh_terminals(is_terminal, nodes, new.subrange(0, k))
        },
{
    let s = new.subrange(0, k + 1);
    assert(s.drop_last() =~= new.subrange(0, k));
    assert(s.subrange(0, k) =~= new.subrange(0, k));
}

/// Every terminal that `extend_terminals` appends is one of the given nodes.
pub proof fn lemma_fresh_terminals_given(is_terminal: Seq<bool>, nodes: Seq<bool>, new: Seq<usize>)
    ensures
        forall|i: int| 0 <= i < fresh_terminals(is_terminal, nodes, new).len()
            ==> new.contains(#[trigger] fresh_terminals(is_terminal, nodes, new)[i]),
    decreases new.len(),
{
    if new.len() > 0 {
        lemma_fresh_terminals_given(is_terminal, nodes, new.drop_last());
        let prev = fresh_terminals(is_terminal, nodes, new.drop_last());
        assert forall|i: int| 0 <= i < fresh_terminals(is_terminal, nodes, new).len()
            implies new.contains(#[trigger] fresh_terminals(is_terminal, nodes, new)[i]) by {
            if i < prev.len() {
                assert(new.drop_last().contains(prev[i]));
                let j = choose|j: int| 0 <= j < new.drop_last().len() && new.drop_last()[j] == prev[i];
                assert(new[j] == prev[i]);
            } else {
                assert(new[new.len() - 1] == new.last());
            }
        }
    }
}

/// Law: `extend_terminals` never adds a node twice, nor a node that is already a terminal or
/// in the tree; every node it adds was given.
pub proof fn law_fresh_terminals_are_new(is_terminal: Seq<bool>, nodes: Seq<bool>, new: Seq<usize>)
    ensures
        fresh_terminals(is_terminal, nodes, new).no_duplicates(),
        forall|i: int|
            0 <= i < fresh_terminals(is_terminal, nodes, new).len() ==> {
                let x = #[trigger] fresh_terminals(is_terminal, nodes, new)[i];
                &&& !seq_bit(is_terminal, x as int)
                &&& !seq_bit(nodes, x as int)
                &&& new.contains(x)
            },
    decreases new.len(),
{
    lemma_fresh_terminals_given(is_terminal, nodes, new);
    if new.len() > 0 {
        law_fresh_terminals_are_new(is_terminal, nodes, new.drop_last());
        let prev = fresh_terminals(is_terminal, nodes, new.drop_last());
        lemma_fresh_terminals_given(is_terminal, nodes, new.drop_last());
        if is_fresh_terminal(is_terminal, nodes, new, new.len() - 1) {
            let f = prev.push(new.last());
            assert(new.subrange(0, new.len() - 1) =~= new.drop_last());
            assert forall|a: int, b: int| 0 <= a < f.len() && 0 <= b < f.len() && a != b implies f[a] != f[b] by {
                if a == f.len() - 1 || b == f.len() - 1 {
                    let other = if a == f.len() - 1 { b } else { a };
                    assert(new.drop_last().contains(prev[other]));
                }
            }
        }
    }
}

/// Law: once every given node is a terminal (as after `extend_terminals` with them), extending
/// again with the same nodes adds nothing: `extend_terminals` is idempotent.
pub proof fn law_extend_terminals_twice(before: Seq<bool>, after: Seq<bool>, nodes: Seq<bool>, new: Seq<usize>)
    requires
        after.len() == before.len(),
        forall|i: int| 0 <= i < new.len() ==> #[trigger] new[i] < before.len(),
        forall|k: usize| k < after.len() ==> #[trigger] after[k as int] == (before[k as int] || new.contains(k)),
    ensures
        fresh_terminals(after, nodes, new).len() == 0,
{
    assert forall|i: int| 0 <= i < new.len() implies seq_bit(after, #[trigger] new[i] as int) by {
        assert(new.contains(new[i]));
        assert(after[new[i] as int] == (before[new[i] as int] || new.contains(new[i])));
    }
    lemma_no_fresh_when_marked(after, nodes, new);
}

/// Nodes that are all marked terminals yield no fresh terminal.
proof fn lemma_no_fresh_when_marked(is_terminal: Seq<bool>, nodes: Seq<bool>, new: Seq<usize>)
    requires
        forall|i: int| 0 <= i < new.len() ==> seq_bit(is_terminal, #[trigger] new[i] as int),
    ensures
        fresh_terminals(is_terminal, nodes, new).len() == 0,
    decreases new.len(),
{
    if new.len() > 0 {
        assert forall|i: int| 0 <= i < new.drop_last().len() implies seq_bit(is_terminal, #[trigger] new.drop_last()[i] as int) by {
            assert(new.drop_last()[i] == new[i]);
        }
        lemma_no_fresh_when_marked(is_terminal, nodes, new.drop_last());
        assert(seq_bit(is_terminal, new[new.len() - 1] as int));
    }
}

/// Law: a tree copied with `clone_from_with_new_terminals` gets no terminal (and the call
/// breaks) exactly when every given node is already in the tree.
pub proof fn law_no_fresh_terminal_iff_in_tree(n: nat, nodes: Seq<bool>, new: Seq<usize>)
    ensures
        fresh_terminals(cleared_bits(n), nodes, new).len() == 0 <==> forall|i: int|
            0 <= i < new.len() ==> seq_bit(nodes, #[trigger] new[i] as int),
    decreases new.len(),
{
    if new.len() > 0 {
        law_no_fresh_terminal_iff_in_tree(n, nodes, new.drop_last());
        let last = new.last();
        assert(new.subrange(0, new.len() - 1) =~= new.drop_last());
        if fresh_terminals(cleared_bits(n), nodes, new).len() == 0 {
            assert forall|i: int| 0 <= i < new.len() implies seq_bit(nodes, #[trigger] new[i] as int) by {
                if i < new.len() - 1 {
                    assert(new.drop_last()[i] == new[i]);
                } else if !seq_bit(nodes, last as int) {
                    assert(new.drop_last().contains(last));
                    let j = choose|j: int| 0 <= j < new.drop_last().len() && new.drop_last()[j] == last;
                    assert(new.drop_last()[j] == new[j]);
                }
            }
        } else {
            if forall|i: int| 0 <= i < new.len() ==> seq_bit(nodes, #[trigger] new[i] as int) {
                assert forall|i: int| 0 <= i < new.drop_last().len() implies seq_bit(nodes, #[trigger] new.drop_last()[i] as int) by {
                    assert(new.drop_last()[i] == new[i]);
                }
                assert(seq_bit(nodes, new[new.len() - 1] as int));
            }
        }
    }
}

/// `es` climbs edges of `set` from `x` up to `c`: `es[0]` goes into `x`, each next edge goes
/// into the source of the one before, and the last one leaves `c`; no edge at all when `x == c`.
pub open spec fn climbs(g: Graph<(), u32>, set: FixedBitSet, es: Seq<usize>, x: usize, c: usize) -> bool
    decreases es.len(),
{
    if es.len() == 0 {
        x == c
    } else {
        &&& es[0] < graph_edges(g).len()
        &&& bit_at(set, es[0] as int)
        &&& edge_target(g, es[0] as int) == x
        &&& climbs(g, set, es.drop_first(), edge_source(g, es[0] as int), c)
    }
}

/// Some climb along edges of `set` leads from `x` up to `c`.
pub open spec fn reaches_by(g: Graph<(), u32>, set: FixedBitSet, x: usize, c: usize) -> bool {
    exists|es: Seq<usize>| #[trigger] climbs(g, set, es, x, c)
}

/// At most one climb along edges of `set` leads from `x` up to `c`.
pub open spec fn climbs_unique(g: Graph<(), u32>, set: FixedBitSet, x: usize, c: usize) -> bool {
    forall|a: Seq<usize>, b: Seq<usize>|
        #![trigger climbs(g, set, a, x, c), climbs(g, set, b, x, c)]
        climbs(g, set, a, x, c) && climbs(g, set, b, x, c) ==> a == b
}

/// A climb from `x` to `y` followed by one from `y` to `c` climbs from `x` to `c`.
pub proof fn lemma_climbs_concat(g: Graph<(), u32>, set: FixedBitSet, a: Seq<usize>, b: Seq<usize>, x: usize, y: usize, c: usize)
    requires
        climbs(g, set, a, x, y),
        climbs(g, set, b, y, c),
    ensures
        climbs(g, set, a + b, x, c),
    decreases a.len(),
{
    if a.len() == 0 {
        assert(a + b =~= b);
    } else {
        lemma_climbs_concat(g, set, a.drop_first(), b, edge_source(g, a[0] as int), y, c);
        assert((a + b).drop_first() =~= a.drop_first() + b);
        assert((a + b)[0] == a[0]);
    }
}

/// A climb along `s1` climbs along any `s2` holding the edges of `s1`.
pub proof fn lemma_climbs_mono(g: Graph<(), u32>, s1: FixedBitSet, s2: FixedBitSet, es: Seq<usize>, x: usize, c: usize)
    requires
        climbs(g, s1, es, x, c),
        forall|e: int| #[trigger] bit_at(s1, e) ==> bit_at(s2, e),
    ensures
        climbs(g, s2, es, x, c),
    decreases es.len(),
{
    if es.len() > 0 {
        lemma_climbs_mono(g, s1, s2, es.drop_first(), edge_source(g, es[0] as int), c);
    }
}

impl SteinerTree {
    /// The tree is an arborescence of `g` rooted at `root`: `root` is one of its nodes, its
    /// edges join its nodes, none goes into `root`, no two go into the same node, and every
    /// node climbs tree edges up to `root`.
    pub open spec fn is_arborescence(&self, g: Graph<(), u32>, root: usize) -> bool {
        &&& bit_at(self.nodes, root as int)
        &&& self.is_closed(g)
        &&& forall|e: usize|
            e < graph_edges(g).len() && #[trigger] bit_at(self.edges, e as int) ==> edge_target(g, e as int) != root
        &&& forall|e1: usize, e2: usize|
            #![trigger bit_at(self.edges, e1 as int), bit_at(self.edges, e2 as int)]
            e1 < graph_edges(g).len() && e2 < graph_edges(g).len() && bit_at(self.edges, e1 as int) && bit_at(
                self.edges,
                e2 as int,
            ) && e1 != e2 ==> edge_target(g, e1 as int) != edge_target(g, e2 as int)
        &&& forall|x: usize| #[trigger] bit_at(self.nodes, x as int) ==> reaches_by(g, self.edges, x, root)
    }

    /// Law: in an arborescence, exactly one climb of tree edges leads from each of its nodes up
    /// to the root (one path from the root to each node).
    pub proof fn law_arborescence_paths_unique(&self, g: Graph<(), u32>, root: usize, x: usize)
        requires
            self.is_arborescence(g, root),
            bit_at(self.nodes, x as int),
        ensures
            reaches_by(g, self.edges, x, root),
            climbs_unique(g, self.edges, x, root),
    {
        assert forall|a: Seq<usize>, b: Seq<usize>|
            climbs(g, self.edges, a, x, root) && climbs(g, self.edges, b, x, root) implies a == b by {
            self.lemma_tree_climbs_equal(g, root, a, b, x);
        }
    }

    /// Two climbs of tree edges from `x` up to the root are the same.
    proof fn lemma_tree_climbs_equal(&self, g: Graph<(), u32>, root: usize, a: Seq<usize>, b: Seq<usize>, x: usize)
        requires
            self.is_arborescence(g, root),
            climbs(g, self.edges, a, x, root),
            climbs(g, self.edges, b, x, root),
        ensures
            a == b,
        decreases a.len(),
    {
        if a.len() == 0 && b.len() > 0 {
            assert(bit_at(self.edges, b[0] as int));
        } else if a.len() > 0 && b.len() == 0 {
            assert(bit_at(self.edges, a[0] as int));
        } else if a.len() > 0 {
            assert(bit_at(self.edges, a[0] as int) && bit_at(self.edges, b[0] as int));
            assert(a[0] == b[0]);
            self.lemma_tree_climbs_equal(g, root, a.drop_first(), b.drop_first(), edge_source(g, a[0] as int));
            assert(a =~= seq![a[0]] + a.drop_first());
            assert(b =~= seq![b[0]] + b.drop_first());
        } else {
            assert(a =~= b);
        }
    }

    /// Every edge of the tree joins two nodes of the tree.
    pub open spec fn is_closed(&self, g: Graph<(), u32>) -> bool {
        forall|e: usize|
            e < graph_edges(g).len() && #[trigger] bit_at(self.edges, e as int) ==> bit_at(
                self.nodes,
                edge_source(g, e as int) as int,
            ) && bit_at(self.nodes, edge_target(g, e as int) as int)
    }

    /// Whether the tree is well formed over `g`: one bit per node and per edge, terminals are
    /// nodes of the graph and all marked in `is_terminal`.
    pub open spec fn wf(&self, g: Graph<(), u32>) -> bool {
        &&& bitset_bits(self.nodes).len() == graph_node_count(g)
        &&& bitset_bits(self.edges).len() == graph_edges(g).len()
        &&& bitset_bits(self.is_terminal).len() == graph_node_count(g)
        &&& forall|i: int|
            0 <= i < self.terminals@.len() ==> #[trigger] self.terminals@[i] < graph_node_count(g)
                && bit_at(self.is_terminal, self.terminals@[i] as int)
    }

    /// A tree holding only `root`, with no edge, weight zero and the given terminals.
    pub fn new(graph: &Graph<(), u32>, root: usize, terminals: Vec<usize>) -> (tree: Self)
        requires
            root < graph_node_count(*graph),
            forall|i: int| 0 <= i < terminals@.len() ==> #[trigger] terminals@[i] < graph_node_count(*graph),
        ensures
            tree.wf(*graph),
            tree.is_closed(*graph),
            tree.is_arborescence(*graph, root),
            bitset_bits(tree.nodes) == cleared_bits(graph_node_count(*graph)).update(root as int, true),
            bitset_bits(tree.edges) == cleared_bits(graph_edges(*graph).len()),
            tree.total_weight == 0,
            tree.terminals@ == terminals@,
            forall|k: usize|
                k < graph_node_count(*graph) ==> (bitset_bits(tree.is_terminal)[k as int]
                    <==> terminals@.contains(k)),
    {
        let n = node_bound(graph);
        let mut is_terminal = bitset_with_capacity(n);
        let mut i: usize = 0;
        while i < terminals.len()
            invariant
                0 <= i <= terminals@.len(),
                n == graph_node_count(*graph),
                forall|j: int| 0 <= j < terminals@.len() ==> #[trigger] terminals@[j] < n,
                bitset_bits(is_terminal).len() == n,
                forall|k: usize|
                    k < n ==> (bitset_bits(is_terminal)[k as int] <==> terminals@.subrange(
                        0,
                        i as int,
                    ).contains(k)),
            decreases terminals@.len() - i,
        {
            let t = terminals[i];
            bitset_insert(&mut is_terminal, t);
            proof {
                assert forall|k: usize| k < n implies (bitset_bits(is_terminal)[k as int]
                    <==> terminals@.subrange(0, i + 1).contains(k)) by {
                    let s = terminals@.subrange(0, i + 1);
                    assert(s =~= terminals@.subrange(0, i as int).push(t));
                    if k == t {
                        assert(s[i as int] == t);
                    } else if terminals@.subrange(0, i as int).contains(k) {
                        let j = choose|j: int| 0 <= j < i && terminals@.subrange(0, i as int)[j] == k;
                        assert(s[j] == k);
                    } else if s.contains(k) {
                        let j = choose|j: int| 0 <= j < s.len() && s[j] == k;
                        assert(s[i as int] == t);
                        assert(j < i);
                        assert(terminals@.subrange(0, i as int)[j] == k);
                    }
                }
            }
            i = i + 1;
        }
        assert(terminals@.subrange(0, terminals@.len() as int) =~= terminals@);
        let mut nodes = bitset_with_capacity(n);
        bitset_insert(&mut nodes, root);
        let edges = bitset_with_capacity(edge_bound(graph));
        let tree = SteinerTree { nodes, edges, total_weight: 0, terminals, is_terminal };
        assert forall|j: int| 0 <= j < tree.terminals@.len() implies #[trigger] tree.terminals@[j]
            < graph_node_count(*graph) && bit_at(tree.is_terminal, tree.terminals@[j] as int) by {
            assert(terminals@.contains(terminals@[j]));
        }
        assert(climbs(*graph, tree.edges, Seq::empty(), root, root));
        tree
    }

    /// Whether `node` is in the tree (`tree[node]`).
    pub fn contains_node(&self, node: usize) -> (r: bool)
        ensures
            r == bit_at(self.nodes, node as int),
    {
        bitset_contains(&self.nodes, node)
    }

    /// Whether `edge` is in the tree (`tree[edge]`).
    pub fn contains_edge(&self, edge: usize) -> (r: bool)
        ensures
            r == bit_at(self.edges, edge as int),
    {
        bitset_contains(&self.edges, edge)
    }

    /// Adds as terminals the given nodes that are neither terminals yet nor already in the
    /// tree, each once, in order; every given node is marked as a terminal. Continues when at
    /// least one terminal was added, breaks otherwise.
    pub fn extend_terminals(&mut self, new_terminals: Vec<usize>) -> (r: ControlFlow<()>)
        requires
            forall|i: int|
                0 <= i < new_terminals@.len() ==> #[trigger] new_terminals@[i] < bitset_bits(
                    old(self).is_terminal,
                ).len(),
        ensures
            final(self).nodes == old(self).nodes,
            final(self).edges == old(self).edges,
            final(self).total_weight == old(self).total_weight,
            final(self).terminals@ == old(self).terminals@ + fresh_terminals(
                bitset_bits(old(self).is_terminal),
                bitset_bits(old(self).nodes),
                new_terminals@,
            ),
            bitset_bits(final(self).is_terminal).len() == bitset_bits(old(self).is_terminal).len(),
            forall|k: usize|
                k < bitset_bits(final(self).is_terminal).len() ==> (#[trigger] bitset_bits(
                    final(self).is_terminal,
                )[k as int] == (bitset_bits(old(self).is_terminal)[k as int] || new_terminals@.contains(k))),
            r is Continue <==> final(self).terminals@.len() > old(self).terminals@.len(),
    {
        let n = self.terminals.len();
        let ghost old_is_terminal = self.is_terminal;
        let mut i: usize = 0;
        while i < new_terminals.len()
            invariant
                0 <= i <= new_terminals@.len(),
                n == old(self).terminals@.len(),
                self.nodes == old(self).nodes,
                self.edges == old(self).edges,
                self.total_weight == old(self).total_weight,
                old_is_terminal == old(self).is_terminal,
                forall|j: int|
                    0 <= j < new_terminals@.len() ==> #[trigger] new_terminals@[j] < bitset_bits(
                        old_is_terminal,
                    ).len(),
                bitset_bits(self.is_terminal).len() == bitset_bits(old_is_terminal).len(),
                forall|k: usize|
                    k < bitset_bits(self.is_terminal).len() ==> (bitset_bits(self.is_terminal)[k as int]
                        == (bitset_bits(old_is_terminal)[k as int] || new_terminals@.subrange(
                        0,
                        i as int,
                    ).contains(k))),
                self.terminals@ == old(self).terminals@ + fresh_terminals(
                    bitset_bits(old_is_terminal),
                    bitset_bits(old(self).nodes),
                    new_terminals@.subrange(0, i as int),
                ),
            decreases new_terminals@.len() - i,
        {
            let node = new_terminals[i];
            let ghost before = bitset_bits(self.is_terminal);
            assert(forall|k: usize|
                k < before.len() ==> #[trigger] before[k as int] == (bitset_bits(old_is_terminal)[k as int]
                    || new_terminals@.subrange(0, i as int).contains(k)));
            assert(before[node as int] == (bitset_bits(old_is_terminal)[node as int]
                || new_terminals@.subrange(0, i as int).contains(node))) by {
                assert(node < before.len());
            }
            let was_terminal = bitset_put(&mut self.is_terminal, node);
            let in_tree = bitset_contains(&self.nodes, node);
            proof {
                lemma_fresh_terminals_prefix(bitset_bits(old_is_terminal), bitset_bits(old(self).nodes), new_terminals@, i as int);
                let pre = new_terminals@.subrange(0, i as int);
                let s = new_terminals@.subrange(0, i + 1);
                assert(s =~= pre.push(node));
                assert(was_terminal == (bit_at(old_is_terminal, node as int) || pre.contains(node)));
                assert forall|k: usize| k < bitset_bits(self.is_terminal).len() implies (bitset_bits(
                    self.is_terminal,
                )[k as int] == (bitset_bits(old_is_terminal)[k as int] || s.contains(k))) by {
                    if k == node {
                        assert(s[i as int] == node);
                    } else if pre.contains(k) {
                        let j = choose|j: int| 0 <= j < pre.len() && pre[j] == k;
                        assert(s[j] == k);
                    } else if s.contains(k) {
                        let j = choose|j: int| 0 <= j < s.len() && s[j] == k;
                        assert(s[i as int] == node);
                        assert(j < i);
                        assert(pre[j] == k);
                    }
                }
            }
            if !was_terminal && !in_tree {
                self.terminals.push(node);
            }
            proof {
                assert(self.terminals@ =~= old(self).terminals@ + fresh_terminals(
                    bitset_bits(old_is_terminal),
                    bitset_bits(old(self).nodes),
                    new_terminals@.subrange(0, i + 1),
                ));
            }
            i = i + 1;
        }
        assert(new_terminals@.subrange(0, new_terminals@.len() as int) =~= new_terminals@);
        if n != self.terminals.len() {
            ControlFlow::Continue(())
        } else {
            ControlFlow::Break(())
        }
    }

    /// Becomes a copy of `other`'s nodes and edges, with weight zero and no terminal, then adds
    /// the given terminals as `extend_terminals` does.
    pub fn clone_from_with_new_terminals(&mut self, other: &Self, terminals: Vec<usize>) -> (r: ControlFlow<()>)
        requires
            forall|i: int|
                0 <= i < terminals@.len() ==> #[trigger] terminals@[i] < bitset_bits(
                    old(self).is_terminal,
                ).len(),
        ensures
            bitset_bits(final(self).nodes) == bitset_bits(other.nodes),
            bitset_bits(final(self).edges) == bitset_bits(other.edges),
            final(self).total_weight == 0,
            bitset_bits(final(self).is_terminal).len() == bitset_bits(old(self).is_terminal).len(),
            forall|k: usize|
                k < bitset_bits(final(self).is_terminal).len() ==> (bitset_bits(
                    final(self).is_terminal,
                )[k as int] == terminals@.contains(k)),
            final(self).terminals@ == fresh_terminals(
                cleared_bits(bitset_bits(old(self).is_terminal).len()),
                bitset_bits(other.nodes),
                terminals@,
            ),
            r is Continue <==> final(self).terminals@.len() > 0,
    {
        bitset_clone_from(&mut self.nodes, &other.nodes);
        bitset_clone_from(&mut self.edges, &other.edges);
        self.total_weight = 0;
        self.terminals.clear();
        bitset_clear(&mut self.is_terminal);
        self.extend_terminals(terminals)
    }
}

} // verus!
