//! Building the Steiner graph from the solution space. From each terminal the space is climbed
//! towards the root through the edges that lead to a node from what can provide it; a chain of
//! single parents without requirements collapses into one Steiner node, and the requirements met
//! on the way are collected: those of the indispensable path become terminals, the others are
//! kept, sorted and shared, as dispensable requirements of the edges that depend on them.
use crate::error::Error;
use crate::graph::{
    add_steiner_edge, add_steiner_node, edge_bound, edges_join_nodes, graph_edges, graph_node_count, node_bound,
};
use crate::query::FieldFlags;
use crate::requirements::IdRange;
use crate::requirements_input::{DependentEdgeWithDispensableRequirements, DispensableRequirementsBuilder, SteinerInputMap};
use crate::solution::SpaceEdge;
use crate::space_graph::{
    list_entries, space_edge, space_edge_count, space_edges, space_edges_directed, space_list, space_lists, space_node,
    space_node_count,
    space_nodes, space_wf_with, SpaceNode,
};
use petgraph::Graph;
use vstd::prelude::*;

verus! {

/// The entries of a node's list: each edge as `(index, source, target, kind)`.
pub type Entries = Seq<(usize, usize, usize, SpaceEdge)>;

/// What an entry of `n`'s list is: its edge, that edge's endpoints (one of them `n`, on the side
/// of the list) and kind, all within a space of `cnt` nodes.
pub proof fn lemma_entry(g: Graph<SpaceNode, SpaceEdge>, cnt: nat, n: usize, incoming: bool, k: int)
    requires
        space_wf_with(g, cnt),
        n < cnt,
        0 <= k < list_entries(g, space_lists(g), n, incoming).len() || 0 <= k < space_list(g, n, incoming).len(),
    ensures
        ({
            let t = list_entries(g, space_lists(g), n, incoming)[k];
            &&& t.0 == space_list(g, n, incoming)[k]
            &&& t.0 < space_edges(g).len()
            &&& t == (t.0, space_edge(g, t.0).0, space_edge(g, t.0).1, space_edge(g, t.0).2)
            &&& t.1 < cnt && t.2 < cnt
            &&& (if incoming {
                t.2 == n
            } else {
                t.1 == n
            })
        }),
        list_entries(g, space_lists(g), n, incoming).len() == space_list(g, n, incoming).len(),
{
    let e = space_list(g, n, incoming)[k];
    assert(e < space_edges(g).len());
    assert(space_edges(g)[e as int].0 < cnt && space_edges(g)[e as int].1 < cnt);
}

/// A field that is neither indispensable nor out of the leaves: a requirement that may be left out.
pub open spec fn is_dispensable_leaf(node: SpaceNode) -> bool {
    match node {
        SpaceNode::Field(f) => !(f.flags.0 & FieldFlags::INDISPENSABLE == FieldFlags::INDISPENSABLE) && (f.flags.0
            & FieldFlags::LEAF_NODE == FieldFlags::LEAF_NODE),
        _ => false,
    }
}

/// The requirements among the entries of a node's outgoing list: the targets of its `Requires`
/// edges that are dispensable leaf fields, in list order.
pub open spec fn collected(g: Graph<SpaceNode, SpaceEdge>, entries: Entries) -> Seq<usize>
    decreases entries.len(),
{
    if entries.len() == 0 {
        Seq::empty()
    } else {
        let rest = collected(g, entries.drop_last());
        let t = entries.last();
        if t.3 is Requires && is_dispensable_leaf(space_nodes(g)[t.2 as int]) {
            rest.push(t.2)
        } else {
            rest
        }
    }
}

/// Law: forgetting the requirements that `collect` just appended for a node leaves the required
/// space nodes as they were before the collection.
pub proof fn law_forget_undoes_collect(g: Graph<SpaceNode, SpaceEdge>, n: usize, before: Seq<usize>)
    requires
        n < space_nodes(g).len(),
    ensures
        (before + collected(g, list_entries(g, space_lists(g), n, false))).subrange(0, before.len() as int) == before,
{
    let after = before + collected(g, list_entries(g, space_lists(g), n, false));
    assert(after.subrange(0, before.len() as int) =~= before);
}

/// The items are in non-decreasing order.
pub open spec fn sorted_ids(s: Seq<usize>) -> bool {
    forall|i: int, j: int| 0 <= i <= j < s.len() ==> s[i] <= s[j]
}

/// `k` is the first range of `interner` whose items in `required` are `t`.
pub open spec fn interned_first(required: Seq<usize>, interner: Seq<IdRange>, t: Seq<usize>, k: int) -> bool {
    &&& 0 <= k < interner.len()
    &&& interner[k].of(required) == t
    &&& forall|j: int| 0 <= j < k ==> (#[trigger] interner[j]).of(required) != t
}

/// No range of `interner` holds `t` in `required`.
pub open spec fn not_interned(required: Seq<usize>, interner: Seq<IdRange>, t: Seq<usize>) -> bool {
    forall|j: int| 0 <= j < interner.len() ==> (#[trigger] interner[j]).of(required) != t
}

/// Whether `t` provides `r` at no cost: it has no requirement of its own and provides `r`.
pub open spec fn provides_freely(g: Graph<SpaceNode, SpaceEdge>, t: usize, r: usize) -> bool {
    let out = space_list(g, t, false);
    &&& forall|k: int| 0 <= k < out.len() ==> !(space_edge(g, #[trigger] out[k]).2 is Requires)
    &&& exists|k: int|
        0 <= k < out.len() && space_edge(g, #[trigger] out[k]).2 is Provides && space_edge(g, out[k]).1 == r
}

/// Whether the parent `p` can provide a field that provides `r` at no cost.
pub open spec fn parent_provides_freely(g: Graph<SpaceNode, SpaceEdge>, p: usize, r: usize) -> bool {
    let out = space_list(g, p, false);
    exists|k: int|
        0 <= k < out.len() && space_edge(g, #[trigger] out[k]).2 is CanProvide && provides_freely(
            g,
            space_edge(g, out[k]).1,
            r,
        )
}

/// The edges that make a node dependent on its requirements: those coming from a parent
/// resolver or providing resolver.
pub open spec fn is_dependent_kind(k: SpaceEdge) -> bool {
    k is CreateChildResolver || k is CanProvide
}

/// Whether every parent of `n` (through a dependent edge) provides each of `req` at no cost:
/// then the requirements cost nothing whichever parent is taken.
pub open spec fn requirements_free(g: Graph<SpaceNode, SpaceEdge>, n: usize, req: Seq<usize>) -> bool {
    let inc = space_list(g, n, true);
    forall|k: int, j: int|
        0 <= k < inc.len() && is_dependent_kind(space_edge(g, #[trigger] inc[k]).2) && 0 <= j < req.len()
            ==> parent_provides_freely(g, space_edge(g, inc[k]).0, #[trigger] req[j])
}

/// The dependent edges among the entries of a node's incoming list, in list order, each with the
/// requirement range `ids`.
pub open spec fn dependents(entries: Entries, ids: IdRange) -> Seq<DependentEdgeWithDispensableRequirements>
    decreases entries.len(),
{
    if entries.len() == 0 {
        Seq::empty()
    } else {
        let rest = dependents(entries.drop_last(), ids);
        let t = entries.last();
        if is_dependent_kind(t.3) {
            rest.push(
                DependentEdgeWithDispensableRequirements {
                    dependent_space_edge_source: t.1,
                    dependent_space_edge_id: t.0,
                    required_space_node_ids: ids,
                },
            )
        } else {
            rest
        }
    }
}

/// The requirements collected fit a space of `sn` nodes and `se` edges and a Steiner graph of
/// `n` nodes: every id is one of them, every range fits the required space nodes, and the
/// interned ranges are distinct in content.
pub open spec fn requirements_fit(b: DispensableRequirementsBuilder, sn: nat, se: nat, n: nat) -> bool {
    let len = b.required_space_nodes@.len();
    &&& forall|k: int| 0 <= k < len ==> #[trigger] b.required_space_nodes@[k] < sn
    &&& forall|i: int| 0 <= i < b.free@.len() ==> (#[trigger] b.free@[i]).0 < n && b.free@[i].1.fits(len)
    &&& forall|i: int|
        0 <= i < b.dispensable@.len() ==> {
            let d = #[trigger] b.dispensable@[i];
            &&& d.dependent_space_edge_source < sn
            &&& d.dependent_space_edge_id < se
            &&& d.required_space_node_ids.fits(len)
        }
    &&& forall|i: int| 0 <= i < b.interner@.len() ==> (#[trigger] b.interner@[i]).fits(len)
}


/// The items of `v` in `ids`, sorted: an insertion sort.
fn sorted_copy(v: &Vec<usize>, ids: IdRange) -> (r: Vec<usize>)
    requires
        ids.fits(v@.len()),
    ensures
        sorted_ids(r@),
        r@.to_multiset() == ids.of(v@).to_multiset(),
        r@.len() == ids.end - ids.start,
{
    broadcast use vstd::seq_lib::group_to_multiset_ensures;

    let mut out: Vec<usize> = Vec::new();
    let mut k: usize = ids.start;
    while k < ids.end
        invariant
            ids.start <= k <= ids.end,
            ids.fits(v@.len()),
            sorted_ids(out@),
            out@.to_multiset() == v@.subrange(ids.start as int, k as int).to_multiset(),
            out@.len() == k - ids.start,
        decreases ids.end - k,
    {
        let x = v[k];
        let mut j: usize = 0;
        while j < out.len() && out[j] <= x
            invariant
                j <= out@.len(),
                forall|i: int| 0 <= i < j ==> #[trigger] out@[i] <= x,
            decreases out@.len() - j,
        {
            j = j + 1;
        }
        let ghost before = out@;
        out.insert(j, x);
        proof {
            vstd::seq_lib::to_multiset_insert(before, j as int, x);
            assert(v@.subrange(ids.start as int, k + 1) =~= v@.subrange(ids.start as int, k as int).push(x));
            vstd::seq_lib::to_multiset_build(v@.subrange(ids.start as int, k as int), x);
            assert forall|a: int, b: int| 0 <= a <= b < out@.len() implies out@[a] <= out@[b] by {
                if b < j {
                    assert(out@[a] == before[a] && out@[b] == before[b]);
                } else if b == j {
                    if a < j {
                        assert(out@[a] == before[a]);
                    }
                } else if a > j {
                    assert(out@[a] == before[a - 1] && out@[b] == before[b - 1]);
                } else if a == j {
                    assert(out@[b] == before[b - 1]);
                    assert(!(before[j as int] <= x));
                    assert(before[j as int] <= before[b - 1]);
                } else {
                    assert(out@[a] == before[a] && out@[b] == before[b - 1]);
                }
            }
        }
        k = k + 1;
    }
    out
}

/// Whether the items of `v` in `range` are those of `t`.
fn same_items(v: &Vec<usize>, range: IdRange, t: &Vec<usize>) -> (r: bool)
    requires
        range.fits(v@.len()),
    ensures
        r == (range.of(v@) == t@),
{
    if range.end - range.start != t.len() {
        proof {
            assert(range.of(v@).len() != t@.len());
        }
        return false;
    }
    let mut i: usize = 0;
    while i < t.len()
        invariant
            i <= t@.len(),
            range.fits(v@.len()),
            range.end - range.start == t@.len(),
            forall|j: int| 0 <= j < i ==> v@[range.start + j] == t@[j],
        decreases t@.len() - i,
    {
        if v[range.start + i] != t[i] {
            proof {
                assert(range.of(v@)[i as int] != t@[i as int]);
            }
            return false;
        }
        i = i + 1;
    }
    assert(range.of(v@) =~= t@);
    true
}

/// The first range of `interner` whose items in `required` are `t`, if any.
fn find_interned(interner: &Vec<IdRange>, required: &Vec<usize>, t: &Vec<usize>) -> (r: Option<usize>)
    requires
        forall|i: int| 0 <= i < interner@.len() ==> (#[trigger] interner@[i]).fits(required@.len()),
    ensures
        r matches Some(k) ==> interned_first(required@, interner@, t@, k as int),
        r is None ==> not_interned(required@, interner@, t@),
{
    let mut k: usize = 0;
    while k < interner.len()
        invariant
            k <= interner@.len(),
            forall|i: int| 0 <= i < interner@.len() ==> (#[trigger] interner@[i]).fits(required@.len()),
            forall|j: int| 0 <= j < k ==> (#[trigger] interner@[j]).of(required@) != t@,
        decreases interner@.len() - k,
    {
        if same_items(required, interner[k], t) {
            return Some(k);
        }
        k = k + 1;
    }
    None
}

/// Whether `t` provides `r` at no cost (`provides_freely`).
fn provides_freely_exec(space: &Graph<SpaceNode, SpaceEdge>, cnt: usize, t: usize, r: usize) -> (b: bool)
    requires
        space_wf_with(*space, cnt as nat),
        t < cnt,
    ensures
        b == provides_freely(*space, t, r),
{
    let entries = space_edges_directed(space, t, false);
    let ghost out = space_list(*space, t, false);
    let mut found = false;
    let mut i: usize = 0;
    while i < entries.len()
        invariant
            i <= entries@.len(),
            entries@ == list_entries(*space, space_lists(*space), t, false),
            out == space_list(*space, t, false),
            space_wf_with(*space, cnt as nat),
            t < cnt,
            forall|k: int| 0 <= k < i ==> !(space_edge(*space, #[trigger] out[k]).2 is Requires),
            found == exists|k: int|
                0 <= k < i && space_edge(*space, #[trigger] out[k]).2 is Provides && space_edge(*space, out[k]).1 == r,
        decreases entries@.len() - i,
    {
        proof {
            lemma_entry(*space, cnt as nat, t, false, i as int);
        }
        let (_e, _s, target, kind) = entries[i];
        if matches!(kind, SpaceEdge::Requires) {
            return false;
        }
        if matches!(kind, SpaceEdge::Provides) && target == r {
            found = true;
        }
        i = i + 1;
    }
    proof {
        if entries@.len() > 0 {
            lemma_entry(*space, cnt as nat, t, false, 0);
        }
    }
    found
}

/// Whether the parent `p` can provide a field that provides `r` at no cost.
fn parent_provides_freely_exec(space: &Graph<SpaceNode, SpaceEdge>, cnt: usize, p: usize, r: usize) -> (b: bool)
    requires
        space_wf_with(*space, cnt as nat),
        p < cnt,
    ensures
        b == parent_provides_freely(*space, p, r),
{
    let entries = space_edges_directed(space, p, false);
    let ghost out = space_list(*space, p, false);
    let mut i: usize = 0;
    while i < entries.len()
        invariant
            i <= entries@.len(),
            entries@ == list_entries(*space, space_lists(*space), p, false),
            out == space_list(*space, p, false),
            space_wf_with(*space, cnt as nat),
            p < cnt,
            forall|k: int|
                0 <= k < i ==> !(space_edge(*space, #[trigger] out[k]).2 is CanProvide && provides_freely(
                    *space,
                    space_edge(*space, out[k]).1,
                    r,
                )),
        decreases entries@.len() - i,
    {
        proof {
            lemma_entry(*space, cnt as nat, p, false, i as int);
        }
        let (_e, _s, target, kind) = entries[i];
        if matches!(kind, SpaceEdge::CanProvide) && provides_freely_exec(space, cnt, target, r) {
            return true;
        }
        i = i + 1;
    }
    proof {
        if entries@.len() > 0 {
            lemma_entry(*space, cnt as nat, p, false, 0);
        }
    }
    false
}

/// Whether the requirements `req` of `n` cost nothing whichever parent is taken
/// (`requirements_free`).
fn requirements_free_exec(space: &Graph<SpaceNode, SpaceEdge>, cnt: usize, n: usize, req: &Vec<usize>) -> (b: bool)
    requires
        space_wf_with(*space, cnt as nat),
        n < cnt,
    ensures
        b == requirements_free(*space, n, req@),
{
    let entries = space_edges_directed(space, n, true);
    let ghost inc = space_list(*space, n, true);
    let mut i: usize = 0;
    while i < entries.len()
        invariant
            i <= entries@.len(),
            entries@ == list_entries(*space, space_lists(*space), n, true),
            inc == space_list(*space, n, true),
            space_wf_with(*space, cnt as nat),
            n < cnt,
            forall|k: int, j: int|
                0 <= k < i && is_dependent_kind(space_edge(*space, #[trigger] inc[k]).2) && 0 <= j < req@.len()
                    ==> parent_provides_freely(*space, space_edge(*space, inc[k]).0, #[trigger] req@[j]),
        decreases entries@.len() - i,
    {
        proof {
            lemma_entry(*space, cnt as nat, n, true, i as int);
        }
        let (_e, source, _t, kind) = entries[i];
        if matches!(kind, SpaceEdge::CreateChildResolver) || matches!(kind, SpaceEdge::CanProvide) {
            let mut j: usize = 0;
            while j < req.len()
                invariant
                    j <= req@.len(),
                    i < entries@.len(),
                    entries@.len() == inc.len(),
                    inc == space_list(*space, n, true),
                    is_dependent_kind(space_edge(*space, inc[i as int]).2),
                    source == space_edge(*space, inc[i as int]).0,
                    source < cnt,
                    space_wf_with(*space, cnt as nat),
                    forall|jj: int| 0 <= jj < j ==> parent_provides_freely(*space, source, #[trigger] req@[jj]),
                decreases req@.len() - j,
            {
                if !parent_provides_freely_exec(space, cnt, source, req[j]) {
                    assert(!parent_provides_freely(*space, space_edge(*space, inc[i as int]).0, req@[j as int]));
                    return false;
                }
                j = j + 1;
            }
        }
        i = i + 1;
    }
    proof {
        if entries@.len() > 0 {
            lemma_entry(*space, cnt as nat, n, true, 0);
        }
    }
    true
}

impl DispensableRequirementsBuilder {
    /// Appends the requirements of `n`: the targets of its `Requires` edges that are dispensable
    /// leaf fields, in list order; returns their range.
    pub fn collect(&mut self, space: &Graph<SpaceNode, SpaceEdge>, n: usize) -> (r: IdRange)
        requires
            n < space_nodes(*space).len(),
        ensures
            final(self).required_space_nodes@ == old(self).required_space_nodes@ + collected(
                *space,
                list_entries(*space, space_lists(*space), n, false),
            ),
            r == (IdRange { start: old(self).required_space_nodes@.len() as usize, end: final(self).required_space_nodes@.len() as usize }),
            r.start <= r.end,
            r.end == final(self).required_space_nodes@.len(),
            r.start == old(self).required_space_nodes@.len(),
            forall|k: int|
                old(self).required_space_nodes@.len() <= k < final(self).required_space_nodes@.len()
                    ==> #[trigger] final(self).required_space_nodes@[k] < space_nodes(*space).len(),
            final(self).free@ == old(self).free@,
            final(self).dispensable@ == old(self).dispensable@,
            final(self).interner@ == old(self).interner@,
    {
        let cnt = space_node_count(space);
        let entries = space_edges_directed(space, n, false);
        let start = self.required_space_nodes.len();
        let ghost before = self.required_space_nodes@;
        let mut i: usize = 0;
        while i < entries.len()
            invariant
                i <= entries@.len(),
                entries@ == list_entries(*space, space_lists(*space), n, false),
                space_wf_with(*space, cnt as nat),
                n < cnt,
                start == before.len(),
                self.required_space_nodes@ == before + collected(*space, entries@.subrange(0, i as int)),
                forall|k: int|
                    before.len() <= k < self.required_space_nodes@.len() ==> #[trigger] self.required_space_nodes@[k] < cnt,
                self.free@ == old(self).free@,
                self.dispensable@ == old(self).dispensable@,
                self.interner@ == old(self).interner@,
                before == old(self).required_space_nodes@,
            decreases entries@.len() - i,
        {
            let (_e, _s, t, kind) = entries[i];
            proof {
                lemma_entry(*space, cnt as nat, n, false, i as int);
                assert(entries@.subrange(0, i + 1).drop_last() =~= entries@.subrange(0, i as int));
            }
            if matches!(kind, SpaceEdge::Requires) {
                let keep = match space_node(space, t).as_query_field() {
                    Some(f) => !f.is_indispensable() && f.is_leaf(),
                    None => false,
                };
                if keep {
                    self.required_space_nodes.push(t);
                }
            }
            proof {
                assert(before + collected(*space, entries@.subrange(0, i + 1)) =~= self.required_space_nodes@);
            }
            i = i + 1;
        }
        assert(entries@.subrange(0, i as int) =~= entries@);
        IdRange { start, end: self.required_space_nodes.len() }
    }

    /// Drops the requirements of range `ids`, the last ones collected, and returns them: an
    /// indispensable node's requirements are terminals, not dispensable requirements.
    pub fn forget_because_indispensable(&mut self, ids: IdRange) -> (r: Vec<usize>)
        requires
            ids.start <= ids.end,
            ids.end == old(self).required_space_nodes@.len(),
        ensures
            r@ == ids.of(old(self).required_space_nodes@),
            final(self).required_space_nodes@ == old(self).required_space_nodes@.subrange(0, ids.start as int),
            final(self).free@ == old(self).free@,
            final(self).dispensable@ == old(self).dispensable@,
            final(self).interner@ == old(self).interner@,
    {
        let mut r: Vec<usize> = Vec::new();
        let mut i = ids.start;
        while i < ids.end
            invariant
                ids.start <= i <= ids.end,
                ids.end == self.required_space_nodes@.len(),
                self.required_space_nodes@ == old(self).required_space_nodes@,
                r@ == self.required_space_nodes@.subrange(ids.start as int, i as int),
            decreases ids.end - i,
        {
            r.push(self.required_space_nodes[i]);
            assert(r@ =~= self.required_space_nodes@.subrange(ids.start as int, i + 1));
            i = i + 1;
        }
        self.required_space_nodes.truncate(ids.start);
        r
    }

    /// Keeps the requirements of range `ids`, the last ones collected, for the Steiner node
    /// `node_id` of the space node `space_node_id`, and returns the range that holds them. They
    /// are sorted and shared: when an earlier range holds the same items, the new ones are dropped
    /// and the first such range is used; otherwise they stay and their range is kept for later.
    /// When every parent of the node provides each of them at no cost, they are free for the node;
    /// otherwise each edge from a parent (resolver or providing resolver) depends on them, in list
    /// order. No requirement at all leaves everything as it is.
    pub fn ingest(
        &mut self,
        space: &Graph<SpaceNode, SpaceEdge>,
        node_id: usize,
        space_node_id: usize,
        ids: IdRange,
    ) -> (r: IdRange)
        requires
            ids.start <= ids.end,
            ids.end == old(self).required_space_nodes@.len(),
            space_node_id < space_nodes(*space).len(),
            forall|i: int| 0 <= i < old(self).interner@.len() ==> (#[trigger] old(self).interner@[i]).fits(ids.start as nat),
            forall|k: int|
                0 <= k < old(self).required_space_nodes@.len() ==> #[trigger] old(self).required_space_nodes@[k]
                    < space_nodes(*space).len(),
        ensures
            ids.start == ids.end ==> r == ids && *final(self) == *old(self),
            ids.start <= final(self).required_space_nodes@.len(),
            r.fits(final(self).required_space_nodes@.len()),
            forall|k: int|
                0 <= k < final(self).required_space_nodes@.len() ==> #[trigger] final(self).required_space_nodes@[k]
                    < space_nodes(*space).len(),
            forall|i: int|
                old(self).dispensable@.len() <= i < final(self).dispensable@.len() ==> {
                    let d = #[trigger] final(self).dispensable@[i];
                    &&& d.dependent_space_edge_source < space_nodes(*space).len()
                    &&& d.dependent_space_edge_id < space_edges(*space).len()
                    &&& d.required_space_node_ids == r
                },
            final(self).dispensable@.subrange(0, old(self).dispensable@.len() as int) == old(self).dispensable@,
            final(self).free@ == old(self).free@ || final(self).free@ == old(self).free@.push((node_id, r)),
            forall|i: int|
                0 <= i < final(self).interner@.len() ==> (#[trigger] final(self).interner@[i]).fits(
                    final(self).required_space_nodes@.len(),
                ),
            ids.start < ids.end ==> {
                let t = r.of(final(self).required_space_nodes@);
                let old_req = old(self).required_space_nodes@;
                let old_int = old(self).interner@;
                &&& r.fits(final(self).required_space_nodes@.len())
                &&& sorted_ids(t)
                &&& t.to_multiset() == ids.of(old_req).to_multiset()
                &&& forall|k: int|
                    interned_first(old_req, old_int, t, k) ==> r == old_int[k] && final(self).required_space_nodes@
                        == old_req.subrange(0, ids.start as int) && final(self).interner@ == old_int
                &&& not_interned(old_req, old_int, t) ==> r == ids && final(self).required_space_nodes@ == old_req.subrange(
                    0,
                    ids.start as int,
                ) + t && final(self).interner@ == old_int.push(r)
                &&& requirements_free(*space, space_node_id, t) ==> final(self).free@ == old(self).free@.push(
                    (node_id, r),
                ) && final(self).dispensable@ == old(self).dispensable@
                &&& !requirements_free(*space, space_node_id, t) ==> final(self).free@ == old(self).free@
                    && final(self).dispensable@ == old(self).dispensable@ + dependents(
                    list_entries(*space, space_lists(*space), space_node_id, true),
                    r,
                )
            },
    {
        if ids.start == ids.end {
            return ids;
        }
        let cnt = space_node_count(space);
        let ghost old_req = self.required_space_nodes@;
        let ghost old_int = self.interner@;
        let sorted = sorted_copy(&self.required_space_nodes, ids);
        self.required_space_nodes.truncate(ids.start);
        proof {
            assert forall|i: int| 0 <= i < old_int.len() implies (#[trigger] old_int[i]).of(self.required_space_nodes@)
                == old_int[i].of(old_req) by {
                assert(old_int[i].of(self.required_space_nodes@) =~= old_int[i].of(old_req));
            }
        }
        let found = find_interned(&self.interner, &self.required_space_nodes, &sorted);
        let r = match found {
            Some(k) => self.interner[k],
            None => {
                let mut i: usize = 0;
                while i < sorted.len()
                    invariant
                        i <= sorted@.len(),
                        sorted@.len() == ids.end - ids.start,
                        self.required_space_nodes@ == old_req.subrange(0, ids.start as int) + sorted@.subrange(0, i as int),
                        self.interner@ == old_int,
                        self.free@ == old(self).free@,
                        self.dispensable@ == old(self).dispensable@,
                    decreases sorted@.len() - i,
                {
                    self.required_space_nodes.push(sorted[i]);
                    assert(self.required_space_nodes@ =~= old_req.subrange(0, ids.start as int) + sorted@.subrange(
                        0,
                        i + 1,
                    ));
                    i = i + 1;
                }
                assert(sorted@.subrange(0, i as int) =~= sorted@);
                self.interner.push(ids);
                ids
            },
        };
        proof {
            match found {
                Some(k) => {
                    assert(r.of(self.required_space_nodes@) == sorted@);
                    assert(old_int[k as int].of(self.required_space_nodes@) == old_int[k as int].of(old_req));
                    assert(!not_interned(old_req, old_int, sorted@));
                },
                None => {
                    assert(r.of(self.required_space_nodes@) =~= sorted@);
                    assert forall|k: int| 0 <= k < self.required_space_nodes@.len() implies #[trigger] self.required_space_nodes@[k]
                        < cnt by {
                        broadcast use vstd::seq_lib::group_to_multiset_ensures;

                        if k >= ids.start {
                            let x = sorted@[k - ids.start];
                            assert(sorted@.contains(x));
                            assert(sorted@.to_multiset().count(x) > 0);
                            assert(ids.of(old_req).to_multiset().count(x) > 0);
                            assert(ids.of(old_req).contains(x));
                            let j = choose|j: int| 0 <= j < ids.of(old_req).len() && ids.of(old_req)[j] == x;
                            assert(old_req[ids.start + j] == x);
                        } else {
                            assert(self.required_space_nodes@[k] == old_req[k]);
                        }
                    }
                    assert forall|j: int| 0 <= j < old_int.len() implies (#[trigger] old_int[j]).of(old_req) != sorted@ by {
                        assert(old_int[j].of(self.required_space_nodes@) == old_int[j].of(old_req));
                    }
                },
            }
            assert forall|k: int| interned_first(old_req, old_int, sorted@, k) implies r == old_int[k] by {
                if let Some(f) = found {
                    if (f as int) < k {
                        assert(old_int[f as int].of(self.required_space_nodes@) == old_int[f as int].of(old_req));
                    } else if k < (f as int) {
                        assert(old_int[k].of(self.required_space_nodes@) == old_int[k].of(old_req));
                    }
                } else {
                    assert(old_int[k].of(self.required_space_nodes@) == old_int[k].of(old_req));
                }
            }
        }
        if requirements_free_exec(space, cnt, space_node_id, &sorted) {
            self.free.push((node_id, r));
        } else {
            let entries = space_edges_directed(space, space_node_id, true);
            let ghost old_disp = self.dispensable@;
            let ghost req_now = self.required_space_nodes@;
            let ghost int_now = self.interner@;
            let ghost free_now = self.free@;
            let mut i: usize = 0;
            while i < entries.len()
                invariant
                    i <= entries@.len(),
                    self.required_space_nodes@ == req_now,
                    self.interner@ == int_now,
                    self.free@ == free_now,
                    self.dispensable@ == old_disp + dependents(entries@.subrange(0, i as int), r),
                    entries@ == list_entries(*space, space_lists(*space), space_node_id, true),
                    space_wf_with(*space, cnt as nat),
                    space_node_id < cnt,
                    forall|j: int|
                        old_disp.len() <= j < self.dispensable@.len() ==> {
                            let d = #[trigger] self.dispensable@[j];
                            &&& d.dependent_space_edge_source < cnt
                            &&& d.dependent_space_edge_id < space_edges(*space).len()
                            &&& d.required_space_node_ids == r
                        },
                decreases entries@.len() - i,
            {
                let (e, source, _t, kind) = entries[i];
                proof {
                    assert(entries@.subrange(0, i + 1).drop_last() =~= entries@.subrange(0, i as int));
                    lemma_entry(*space, cnt as nat, space_node_id, true, i as int);
                }
                if matches!(kind, SpaceEdge::CreateChildResolver) || matches!(kind, SpaceEdge::CanProvide) {
                    self.dispensable.push(
                        DependentEdgeWithDispensableRequirements {
                            dependent_space_edge_source: source,
                            dependent_space_edge_id: e,
                            required_space_node_ids: r,
                        },
                    );
                }
                proof {
                    assert(self.dispensable@ =~= old_disp + dependents(entries@.subrange(0, i + 1), r));
                }
                i = i + 1;
            }
            assert(entries@.subrange(0, i as int) =~= entries@);
        }
        assert(r.of(self.required_space_nodes@) == sorted@);
        assert(r.fits(self.required_space_nodes@.len()));
        assert(sorted_ids(sorted@));
        assert(sorted@.to_multiset() == ids.of(old_req).to_multiset());
        assert(forall|k: int|
            interned_first(old_req, old_int, sorted@, k) ==> r == old_int[k] && self.required_space_nodes@
                == old_req.subrange(0, ids.start as int) && self.interner@ == old_int);
        assert(not_interned(old_req, old_int, sorted@) ==> r == ids && self.required_space_nodes@ == old_req.subrange(
            0,
            ids.start as int,
        ) + sorted@ && self.interner@ == old_int.push(r));
        r
    }
}

/// The Steiner node of a space node not reached yet.
pub const NO_NODE: usize = 0xFFFF_FFFFusize;

/// The weight of an edge that creates a child resolver: a new subgraph request.
pub const RESOLVER_BASE_WEIGHT: u32 = 10;

/// What each resolver collapsed into a Steiner node adds to the weight of the edge below it.
pub const DEPTH_WEIGHT: u32 = 1;

/// The edges that lead to a node from what can provide it.
pub open spec fn is_parent_kind(k: SpaceEdge) -> bool {
    k is CreateChildResolver || k is CanProvide || k is Provides
}

/// The weight of a parent edge of kind `k`.
pub open spec fn parent_weight(k: SpaceEdge) -> u32 {
    if k is CreateChildResolver {
        RESOLVER_BASE_WEIGHT
    } else {
        0
    }
}

/// Every space node not reached yet has a parent: only the root is reached from nowhere, and it
/// is mapped from the start.
pub open spec fn unmapped_have_parents(g: Graph<SpaceNode, SpaceEdge>, map: Seq<usize>) -> bool {
    forall|s: usize|
        s < map.len() && #[trigger] map[s as int] == NO_NODE ==> exists|k: int|
            0 <= k < space_list(g, s, true).len() && is_parent_kind(
                space_edge(g, #[trigger] space_list(g, s, true)[k]).2,
            )
}

/// Reaching space nodes keeps every node not reached yet with a parent.
pub proof fn lemma_unmapped_shrink(g: Graph<SpaceNode, SpaceEdge>, before: Seq<usize>, after: Seq<usize>)
    requires
        unmapped_have_parents(g, before),
        before.len() == after.len(),
        forall|k: int| 0 <= k < after.len() && #[trigger] after[k] == NO_NODE ==> before[k] == NO_NODE,
    ensures
        unmapped_have_parents(g, after),
{
    assert forall|s: usize| s < after.len() && #[trigger] after[s as int] == NO_NODE implies exists|k: int|
        0 <= k < space_list(g, s, true).len() && is_parent_kind(space_edge(g, #[trigger] space_list(g, s, true)[k]).2) by {
        assert(before[s as int] == NO_NODE);
    }
}

/// The terminal is reached, or on the path being climbed, or still at the bottom of the stack.
pub open spec fn terminal_tracked(b: SteinerInputBuilder, terminal: usize) -> bool {
    ||| b.map.space_node_id_to_node_id@[terminal as int] != NO_NODE
    ||| b.space_node_path_stack@.contains(terminal)
    ||| (b.nodes_to_process_stack@.len() > 0 && b.nodes_to_process_stack@[0].space_node_id == terminal)
}

/// The number of resolvers among the space nodes `s`.
pub open spec fn resolver_count(g: Graph<SpaceNode, SpaceEdge>, s: Seq<usize>) -> nat
    decreases s.len(),
{
    if s.len() == 0 {
        0
    } else {
        resolver_count(g, s.drop_first()) + (if space_nodes(g)[s[0] as int] is Resolver {
            1nat
        } else {
            0nat
        })
    }
}

/// `n` as a `u32`, or `u32::MAX` past it.
pub open spec fn capped(n: int) -> u32 {
    if n <= u32::MAX {
        n as u32
    } else {
        u32::MAX
    }
}

/// `path[j]` does not occur in `path` between `from` and `j`.
pub open spec fn first_from(path: Seq<usize>, from: int, j: int) -> bool {
    forall|k: int| from <= k < j ==> path[k] != path[j]
}

/// `path[j]` does not occur earlier in `path`.
pub open spec fn first_occurrence(path: Seq<usize>, j: int) -> bool {
    first_from(path, 0, j)
}

/// The space nodes of `path` from index `from` on are collapsed: each, at its first occurrence
/// there, weighs the resolvers from it to the end of `path` (capped at `u32::MAX`), and every
/// other space node keeps its weight from `old_rel`.
#[verifier::opaque]
pub open spec fn collapsed_from(
    g: Graph<SpaceNode, SpaceEdge>,
    path: Seq<usize>,
    from: int,
    rel: Seq<u32>,
    old_rel: Seq<u32>,
) -> bool {
    &&& forall|j: int|
        from <= j < path.len() && #[trigger] first_from(path, from, j) ==> rel[path[j] as int] == capped(
            DEPTH_WEIGHT * resolver_count(g, path.subrange(j, path.len() as int)),
        )
    &&& forall|k: int|
        0 <= k < rel.len() && !path.subrange(from, path.len() as int).contains(k as usize) ==> #[trigger] rel[k]
            == old_rel[k]
}

/// Collapsing one more space node, `path[len - 1]`, with the weight of the resolvers from it to
/// the end of `path`.
proof fn lemma_collapse_step(
    g: Graph<SpaceNode, SpaceEdge>,
    path: Seq<usize>,
    len: int,
    rel: Seq<u32>,
    old_rel: Seq<u32>,
    w: u32,
)
    requires
        1 <= len <= path.len(),
        forall|j: int| 0 <= j < path.len() ==> #[trigger] path[j] < rel.len(),
        collapsed_from(g, path, len, rel, old_rel),
        w == capped(DEPTH_WEIGHT * resolver_count(g, path.subrange(len - 1, path.len() as int))),
    ensures
        collapsed_from(g, path, len - 1, rel.update(path[len - 1] as int, w), old_rel),
{
    reveal(collapsed_from);
    let s = path[len - 1];
    let nrel = rel.update(s as int, w);
    let rest = path.subrange(len - 1, path.len() as int);
    let prev = path.subrange(len, path.len() as int);
    assert(rest =~= seq![s].add(prev));
    assert forall|j: int| len - 1 <= j < path.len() && #[trigger] first_from(path, len - 1, j) implies nrel[path[j] as int]
        == capped(DEPTH_WEIGHT * resolver_count(g, path.subrange(j, path.len() as int))) by {
        if j == len - 1 {
            assert(path.subrange(j, path.len() as int) == rest);
        } else {
            assert(path[len - 1] != path[j]);
            assert(first_from(path, len, j));
        }
    }
    assert forall|k: int| 0 <= k < nrel.len() && !rest.contains(k as usize) implies #[trigger] nrel[k] == old_rel[k] by {
        assert(rest[0] == s);
        if prev.contains(k as usize) {
            let j = choose|j: int| 0 <= j < prev.len() && prev[j] == k as usize;
            assert(rest[j + 1] == k as usize);
        }
    }
}

/// A space node to climb from, with the Steiner node below it (`NO_NODE` if none), the space
/// edge that leads down to that node, and the weight of that edge.
#[derive(Clone, Copy, Debug)]
pub struct NodeToProcess {
    pub space_node_id: usize,
    pub maybe_child_node_id: usize,
    pub maybe_child_space_edge_id: usize,
    pub maybe_child_edge_weight: u32,
}

/// The Steiner graph being built from the solution space, with the map between the two, the
/// terminals still to climb from, and the two stacks of the climb.
pub struct SteinerInputBuilder {
    pub graph: Graph<(), u32>,
    pub root_node_id: usize,
    pub map: SteinerInputMap,
    pub indispensable_terminal_space_node_ids: Vec<usize>,
    pub dispensable_terminal_space_node_ids: Vec<usize>,
    pub nodes_to_process_stack: Vec<NodeToProcess>,
    pub space_node_path_stack: Vec<usize>,
    pub space_node_relative_depth_weight_to_steiner_node: Vec<u32>,
}

/// The item fits a space of `sn` nodes and `se` edges and a Steiner graph of `n` nodes.
pub open spec fn item_fits(item: NodeToProcess, sn: nat, se: nat, n: nat) -> bool {
    &&& item.space_node_id < sn
    &&& item.maybe_child_node_id == NO_NODE || (item.maybe_child_node_id < n && item.maybe_child_space_edge_id < se)
}

impl SteinerInputBuilder {
    /// Every id refers to what exists: Steiner nodes and edges map to space nodes and edges and
    /// back, the space node of each Steiner node maps back to it, space nodes not reached map to
    /// `NO_NODE`, which is no Steiner node, and the stacks and terminal lists hold space nodes.
    pub open spec fn wf(&self, space: Graph<SpaceNode, SpaceEdge>) -> bool {
        let n = graph_node_count(self.graph);
        let m = graph_edges(self.graph).len();
        let sn = space_nodes(space).len();
        let se = space_edges(space).len();
        &&& n < NO_NODE
        &&& edges_join_nodes(self.graph)
        &&& self.root_node_id < n
        &&& self.map.node_id_to_space_node_id@.len() == n
        &&& forall|i: int| 0 <= i < n ==> #[trigger] self.map.node_id_to_space_node_id@[i] < sn
        &&& forall|i: int|
            0 <= i < n ==> self.map.space_node_id_to_node_id@[#[trigger] self.map.node_id_to_space_node_id@[i] as int] == i
        &&& self.map.edge_id_to_space_edge_id@.len() == m
        &&& forall|i: int| 0 <= i < m ==> #[trigger] self.map.edge_id_to_space_edge_id@[i] < se
        &&& self.map.space_node_id_to_node_id@.len() == sn
        &&& forall|k: int|
            0 <= k < sn ==> #[trigger] self.map.space_node_id_to_node_id@[k] == NO_NODE
                || self.map.space_node_id_to_node_id@[k] < n
        &&& self.map.space_edge_id_to_edge_id@.len() == se
        &&& forall|k: int| 0 <= k < se ==> (#[trigger] self.map.space_edge_id_to_edge_id@[k] matches Some(e) ==> e < m)
        &&& self.space_node_relative_depth_weight_to_steiner_node@.len() == sn
        &&& forall|k: int|
            0 <= k < self.indispensable_terminal_space_node_ids@.len()
                ==> #[trigger] self.indispensable_terminal_space_node_ids@[k] < sn
        &&& forall|k: int|
            0 <= k < self.dispensable_terminal_space_node_ids@.len()
                ==> #[trigger] self.dispensable_terminal_space_node_ids@[k] < sn
        &&& forall|k: int|
            0 <= k < self.nodes_to_process_stack@.len() ==> item_fits(
                #[trigger] self.nodes_to_process_stack@[k],
                sn,
                se,
                n,
            )
        &&& forall|k: int| 0 <= k < self.space_node_path_stack@.len() ==> #[trigger] self.space_node_path_stack@[k] < sn
    }

    /// Collapses the path of single parents climbed so far into the Steiner node `node_id`: each
    /// space node of the path maps to it, with the number of resolvers between it and the node as
    /// its relative weight; then the edge down to the child of `item`, if any, is added, with the
    /// child's edge weight plus the relative weight of `item`'s space node. Weights saturate at
    /// `u32::MAX`.
    #[verifier::rlimit(100)]
    pub fn handle_children(&mut self, space: &Graph<SpaceNode, SpaceEdge>, node_id: usize, item: NodeToProcess)
        requires
            old(self).wf(*space),
            node_id < graph_node_count(old(self).graph),
            item_fits(item, space_nodes(*space).len(), space_edges(*space).len(), graph_node_count(old(self).graph)),
            item.maybe_child_node_id != NO_NODE ==> graph_edges(old(self).graph).len() < u32::MAX,
            forall|j: int, i: int|
                0 <= j < old(self).space_node_path_stack@.len() && 0 <= i < graph_node_count(old(self).graph)
                    && #[trigger] old(self).space_node_path_stack@[j] == #[trigger] old(self).map.node_id_to_space_node_id@[i]
                    ==> i == node_id,
        ensures
            final(self).wf(*space),
            final(self).space_node_path_stack@.len() == 0,
            final(self).nodes_to_process_stack@ == old(self).nodes_to_process_stack@,
            final(self).indispensable_terminal_space_node_ids@ == old(self).indispensable_terminal_space_node_ids@,
            final(self).dispensable_terminal_space_node_ids@ == old(self).dispensable_terminal_space_node_ids@,
            final(self).root_node_id == old(self).root_node_id,
            graph_node_count(final(self).graph) == graph_node_count(old(self).graph),
            forall|j: int|
                0 <= j < old(self).space_node_path_stack@.len() && first_occurrence(old(self).space_node_path_stack@, j)
                    ==> final(self).space_node_relative_depth_weight_to_steiner_node@[#[trigger] old(
                    self,
                ).space_node_path_stack@[j] as int] == capped(
                    DEPTH_WEIGHT * resolver_count(
                        *space,
                        old(self).space_node_path_stack@.subrange(j, old(self).space_node_path_stack@.len() as int),
                    ),
                ),
            forall|k: int|
                0 <= k < space_nodes(*space).len() && !old(self).space_node_path_stack@.contains(k as usize)
                    ==> #[trigger] final(self).space_node_relative_depth_weight_to_steiner_node@[k]
                    == old(self).space_node_relative_depth_weight_to_steiner_node@[k],
            forall|k: int|
                0 <= k < space_nodes(*space).len() ==> #[trigger] final(self).map.space_node_id_to_node_id@[k] == (if old(
                    self,
                ).space_node_path_stack@.contains(k as usize) {
                    node_id
                } else {
                    old(self).map.space_node_id_to_node_id@[k]
                }),
            item.maybe_child_node_id == NO_NODE ==> graph_edges(final(self).graph) == graph_edges(old(self).graph),
            item.maybe_child_node_id != NO_NODE ==> graph_edges(final(self).graph) == graph_edges(old(self).graph).push(
                (
                    node_id,
                    item.maybe_child_node_id,
                    item.maybe_child_edge_weight.saturating_add(
                        final(self).space_node_relative_depth_weight_to_steiner_node@[item.space_node_id as int],
                    ),
                ),
            ),
    {
        let cnt = space_node_count(space);
        let ghost old_path = self.space_node_path_stack@;
        let ghost old_map = self.map.space_node_id_to_node_id@;
        let ghost old_rel = self.space_node_relative_depth_weight_to_steiner_node@;
        let ghost old_self = *self;
        let mut weight: u32 = 0;
        proof {
            assert(old_path.subrange(old_path.len() as int, old_path.len() as int) =~= Seq::<usize>::empty());
            reveal(collapsed_from);
        }
        while self.space_node_path_stack.len() > 0
            invariant
                self.wf(*space),
                cnt == space_nodes(*space).len(),
                node_id < graph_node_count(self.graph),
                self.graph == old_self.graph,
                self.root_node_id == old_self.root_node_id,
                self.map.node_id_to_space_node_id == old_self.map.node_id_to_space_node_id,
                self.map.edge_id_to_space_edge_id == old_self.map.edge_id_to_space_edge_id,
                self.map.space_edge_id_to_edge_id == old_self.map.space_edge_id_to_edge_id,
                self.nodes_to_process_stack == old_self.nodes_to_process_stack,
                self.indispensable_terminal_space_node_ids == old_self.indispensable_terminal_space_node_ids,
                self.dispensable_terminal_space_node_ids == old_self.dispensable_terminal_space_node_ids,
                self.space_node_path_stack@ == old_path.subrange(0, self.space_node_path_stack@.len() as int),
                self.space_node_path_stack@.len() <= old_path.len(),
                forall|j: int, i: int|
                    0 <= j < old_path.len() && 0 <= i < graph_node_count(self.graph) && #[trigger] old_path[j]
                        == #[trigger] self.map.node_id_to_space_node_id@[i] ==> i == node_id,
                forall|j: int| 0 <= j < old_path.len() ==> #[trigger] old_path[j] < cnt,
                weight == capped(
                    DEPTH_WEIGHT * resolver_count(
                        *space,
                        old_path.subrange(self.space_node_path_stack@.len() as int, old_path.len() as int),
                    ),
                ),
                collapsed_from(
                    *space,
                    old_path,
                    self.space_node_path_stack@.len() as int,
                    self.space_node_relative_depth_weight_to_steiner_node@,
                    old_rel,
                ),
                self.space_node_relative_depth_weight_to_steiner_node@.len() == cnt,
                forall|k: int|
                    0 <= k < cnt ==> #[trigger] self.map.space_node_id_to_node_id@[k] == (if old_path.subrange(
                        self.space_node_path_stack@.len() as int,
                        old_path.len() as int,
                    ).contains(k as usize) {
                        node_id
                    } else {
                        old_map[k]
                    }),
            decreases self.space_node_path_stack@.len(),
        {
            let ghost len = self.space_node_path_stack@.len();
            let ghost rel_before = self.space_node_relative_depth_weight_to_steiner_node@;
            let s = self.space_node_path_stack.pop().unwrap();
            self.map.space_node_id_to_node_id.set(s, node_id);
            let is_resolver = match space_node(space, s) {
                SpaceNode::Resolver(_) => true,
                _ => false,
            };
            if is_resolver {
                weight = weight.saturating_add(DEPTH_WEIGHT);
            }
            self.space_node_relative_depth_weight_to_steiner_node.set(s, weight);
            proof {
                let rest = old_path.subrange(len - 1, old_path.len() as int);
                let prev = old_path.subrange(len as int, old_path.len() as int);
                assert(rest =~= seq![s].add(prev));
                assert(rest.drop_first() =~= prev);
                assert(rest[0] == s);
                assert(weight == capped(DEPTH_WEIGHT * resolver_count(*space, rest)));
                lemma_collapse_step(*space, old_path, len as int, rel_before, old_rel, weight);
                assert forall|k: int| 0 <= k < cnt implies #[trigger] self.map.space_node_id_to_node_id@[k] == (if rest.contains(
                    k as usize,
                ) {
                    node_id
                } else {
                    old_map[k]
                }) by {
                    if k as usize == s {
                        assert(rest[0] == s);
                    } else {
                        if prev.contains(k as usize) {
                            let j = choose|j: int| 0 <= j < prev.len() && prev[j] == k as usize;
                            assert(rest[j + 1] == k as usize);
                        }
                        if rest.contains(k as usize) {
                            let j = choose|j: int| 0 <= j < rest.len() && rest[j] == k as usize;
                            assert(j > 0);
                            assert(prev[j - 1] == k as usize);
                        }
                    }
                }
            }
        }
        proof {
            assert(old_path.subrange(0, old_path.len() as int) =~= old_path);
            reveal(collapsed_from);
            assert forall|j: int| 0 <= j < old_path.len() && first_occurrence(old_path, j) implies
                self.space_node_relative_depth_weight_to_steiner_node@[old_path[j] as int] == capped(
                DEPTH_WEIGHT * resolver_count(*space, old_path.subrange(j, old_path.len() as int)),
            ) by {
                assert(first_from(old_path, 0, j));
            }
        }
        if item.maybe_child_node_id != NO_NODE {
            let rel = self.space_node_relative_depth_weight_to_steiner_node[item.space_node_id];
            let w = item.maybe_child_edge_weight.saturating_add(rel);
            let e = add_steiner_edge(&mut self.graph, node_id, item.maybe_child_node_id, w);
            self.map.edge_id_to_space_edge_id.push(item.maybe_child_space_edge_id);
            self.map.space_edge_id_to_edge_id.set(item.maybe_child_space_edge_id, Some(e));
            proof {
                let g = self.graph;
                assert forall|x: int| 0 <= x < graph_edges(g).len() implies #[trigger] crate::graph::edge_source(g, x)
                    < graph_node_count(g) && crate::graph::edge_target(g, x) < graph_node_count(g) by {
                    if x < graph_edges(old_self.graph).len() {
                        assert(graph_edges(g)[x] == graph_edges(old_self.graph)[x]);
                        assert(crate::graph::edge_source(old_self.graph, x) < graph_node_count(old_self.graph));
                    }
                }
            }
        }
    }

    /// Adds a Steiner node for `item`'s space node, collapses the path climbed so far into it and
    /// adds the edge down to `item`'s child (`handle_children`); returns the new node.
    pub fn add(&mut self, space: &Graph<SpaceNode, SpaceEdge>, item: NodeToProcess) -> (r: usize)
        requires
            old(self).wf(*space),
            item_fits(item, space_nodes(*space).len(), space_edges(*space).len(), graph_node_count(old(self).graph)),
            graph_node_count(old(self).graph) + 1 < NO_NODE,
            graph_edges(old(self).graph).len() < u32::MAX,
            old(self).map.space_node_id_to_node_id@[item.space_node_id as int] == NO_NODE,
            forall|j: int|
                0 <= j < old(self).space_node_path_stack@.len()
                    ==> old(self).map.space_node_id_to_node_id@[#[trigger] old(self).space_node_path_stack@[j] as int] == NO_NODE,
        ensures
            final(self).wf(*space),
            r == graph_node_count(old(self).graph),
            graph_node_count(final(self).graph) == r + 1,
            final(self).space_node_path_stack@.len() == 0,
            final(self).nodes_to_process_stack@ == old(self).nodes_to_process_stack@,
            final(self).indispensable_terminal_space_node_ids@ == old(self).indispensable_terminal_space_node_ids@,
            final(self).dispensable_terminal_space_node_ids@ == old(self).dispensable_terminal_space_node_ids@,
            final(self).root_node_id == old(self).root_node_id,
            forall|k: int|
                0 <= k < space_nodes(*space).len() ==> #[trigger] final(self).map.space_node_id_to_node_id@[k] == (if k
                    == item.space_node_id || old(self).space_node_path_stack@.contains(k as usize) {
                    r
                } else {
                    old(self).map.space_node_id_to_node_id@[k]
                }),
            graph_edges(final(self).graph) == graph_edges(old(self).graph) || exists|w: u32|
                graph_edges(final(self).graph) == graph_edges(old(self).graph).push((r, item.maybe_child_node_id, w)),
    {
        let ghost old_g = self.graph;
        let node_id = add_steiner_node(&mut self.graph);
        self.map.node_id_to_space_node_id.push(item.space_node_id);
        self.map.space_node_id_to_node_id.set(item.space_node_id, node_id);
        proof {
            let g = self.graph;
            assert forall|x: int| 0 <= x < graph_edges(g).len() implies #[trigger] crate::graph::edge_source(g, x)
                < graph_node_count(g) && crate::graph::edge_target(g, x) < graph_node_count(g) by {
                assert(crate::graph::edge_source(old_g, x) < graph_node_count(old_g));
            }
            assert forall|k: int| 0 <= k < self.nodes_to_process_stack@.len() implies item_fits(
                #[trigger] self.nodes_to_process_stack@[k],
                space_nodes(*space).len(),
                space_edges(*space).len(),
                graph_node_count(g),
            ) by {
                assert(item_fits(self.nodes_to_process_stack@[k], space_nodes(*space).len(), space_edges(*space).len(), graph_node_count(old_g)));
            }
        }
        self.handle_children(space, node_id, item);
        node_id
    }

    /// Climbs the solution space from `terminal` towards the root and builds the Steiner graph
    /// on the way; returns the Steiner node of the terminal when `indispensable`, else `NO_NODE`.
    ///
    /// Each space node met is handled once: one already reached only gets the edge down to the
    /// node below it. A node with several parents (through the edges that lead to a node from
    /// what can provide it; an edge that creates a child resolver weighs `RESOLVER_BASE_WEIGHT`)
    /// becomes a Steiner node and each parent is climbed in turn. A node with a single parent is
    /// collapsed into the node above it, unless it has dispensable requirements or its edge
    /// weighs something and the terminal is already placed. The requirements of the nodes on the
    /// terminal's own path become indispensable terminals; those of the other new nodes are kept as
    /// dispensable requirements and their space nodes become dispensable terminals.
    ///
    /// The climb makes at most one step per space edge, and one more, on a space without cycles;
    /// past that it stops with `RequirementCycleDetected`. Before a Steiner graph would hold
    /// `u32::MAX - 1` nodes or `u32::MAX` edges it stops with `InternalError`. Either way the
    /// stacks are emptied and what was built stays well formed.
    #[verifier::rlimit(60)]
    pub fn ingest_nodes_from_terminal(
        &mut self,
        space: &Graph<SpaceNode, SpaceEdge>,
        requirements: &mut DispensableRequirementsBuilder,
        terminal: usize,
        indispensable: bool,
    ) -> (r: Result<usize, Error>)
        requires
            old(self).wf(*space),
            requirements_fit(
                *old(requirements),
                space_nodes(*space).len(),
                space_edges(*space).len(),
                graph_node_count(old(self).graph),
            ),
            terminal < space_nodes(*space).len(),
            old(self).nodes_to_process_stack@.len() == 0,
            old(self).space_node_path_stack@.len() == 0,
            unmapped_have_parents(*space, old(self).map.space_node_id_to_node_id@),
        ensures
            final(self).wf(*space),
            requirements_fit(
                *final(requirements),
                space_nodes(*space).len(),
                space_edges(*space).len(),
                graph_node_count(final(self).graph),
            ),
            final(self).nodes_to_process_stack@.len() == 0,
            final(self).space_node_path_stack@.len() == 0,
            unmapped_have_parents(*space, final(self).map.space_node_id_to_node_id@),
            final(self).root_node_id == old(self).root_node_id,
            graph_node_count(old(self).graph) <= graph_node_count(final(self).graph),
            graph_edges(final(self).graph).subrange(0, graph_edges(old(self).graph).len() as int) == graph_edges(
                old(self).graph,
            ),
            forall|k: int|
                0 <= k < space_nodes(*space).len() && old(self).map.space_node_id_to_node_id@[k] != NO_NODE
                    ==> #[trigger] final(self).map.space_node_id_to_node_id@[k]
                    == old(self).map.space_node_id_to_node_id@[k],
            r matches Ok(x) ==> (indispensable ==> x < graph_node_count(final(self).graph)
                && final(self).map.space_node_id_to_node_id@[terminal as int] == x),
            r matches Ok(x) ==> (!indispensable ==> x == NO_NODE),
            r matches Err(e) ==> e is RequirementCycleDetected || e is InternalError,
            r is Ok ==> final(self).map.space_node_id_to_node_id@[terminal as int] != NO_NODE,
            old(self).indispensable_terminal_space_node_ids@.len() <= final(self).indispensable_terminal_space_node_ids@.len(),
            final(self).indispensable_terminal_space_node_ids@.subrange(
                0,
                old(self).indispensable_terminal_space_node_ids@.len() as int,
            ) == old(self).indispensable_terminal_space_node_ids@,
            old(self).dispensable_terminal_space_node_ids@.len() <= final(self).dispensable_terminal_space_node_ids@.len(),
            final(self).dispensable_terminal_space_node_ids@.subrange(
                0,
                old(self).dispensable_terminal_space_node_ids@.len() as int,
            ) == old(self).dispensable_terminal_space_node_ids@,
            old(self).map.space_node_id_to_node_id@[terminal as int] != NO_NODE ==> {
                &&& graph_node_count(final(self).graph) == graph_node_count(old(self).graph)
                &&& graph_edges(final(self).graph) == graph_edges(old(self).graph)
                &&& *final(requirements) == *old(requirements)
                &&& r == Ok::<usize, Error>(
                    if indispensable {
                        old(self).map.space_node_id_to_node_id@[terminal as int]
                    } else {
                        NO_NODE
                    },
                )
            },
    {
        let cnt = space_node_count(space);
        let ecount = space_edge_count(space);
        let ghost se = space_edges(*space).len();
        let ghost old_map = self.map.space_node_id_to_node_id@;
        let ghost old_edges = graph_edges(self.graph);
        let ghost old_n = graph_node_count(self.graph);
        let mut terminal_node_id: Option<usize> = if indispensable {
            None
        } else {
            Some(NO_NODE)
        };
        self.nodes_to_process_stack.push(
            NodeToProcess {
                space_node_id: terminal,
                maybe_child_node_id: NO_NODE,
                maybe_child_space_edge_id: NO_NODE,
                maybe_child_edge_weight: 0,
            },
        );
        let mut fuel: u64 = ecount as u64 + 1;
        while self.nodes_to_process_stack.len() > 0
            invariant
                self.wf(*space),
                cnt == space_nodes(*space).len(),
                se == space_edges(*space).len(),
                terminal < cnt,
                requirements_fit(*requirements, cnt as nat, se, graph_node_count(self.graph)),
                unmapped_have_parents(*space, old_map),
                forall|k: int| 0 <= k < cnt && #[trigger] self.map.space_node_id_to_node_id@[k] == NO_NODE ==> old_map[k] == NO_NODE,
                self.root_node_id == old(self).root_node_id,
                old_n == graph_node_count(old(self).graph),
                old_edges == graph_edges(old(self).graph),
                old_map == old(self).map.space_node_id_to_node_id@,
                old_map.len() == cnt,
                space_wf_with(*space, cnt as nat),
                old_n <= graph_node_count(self.graph),
                old_edges.len() <= graph_edges(self.graph).len(),
                forall|i: int| 0 <= i < old_edges.len() ==> #[trigger] graph_edges(self.graph)[i] == old_edges[i],
                forall|k: int|
                    0 <= k < cnt && old_map[k] != NO_NODE ==> #[trigger] self.map.space_node_id_to_node_id@[k]
                        == old_map[k],
                forall|j: int|
                    0 <= j < self.space_node_path_stack@.len() ==> old_map[#[trigger] self.space_node_path_stack@[j] as int]
                        == NO_NODE,
                !indispensable ==> terminal_node_id == Some(NO_NODE),
                self.space_node_path_stack@.len() > 0 ==> self.nodes_to_process_stack@.len() > 0,
                terminal_tracked(*self, terminal),
                forall|j: int|
                    0 <= j < self.space_node_path_stack@.len()
                        ==> self.map.space_node_id_to_node_id@[#[trigger] self.space_node_path_stack@[j] as int] == NO_NODE,
                old(self).indispensable_terminal_space_node_ids@.len() <= self.indispensable_terminal_space_node_ids@.len(),
                self.indispensable_terminal_space_node_ids@.subrange(
                    0,
                    old(self).indispensable_terminal_space_node_ids@.len() as int,
                ) == old(self).indispensable_terminal_space_node_ids@,
                old(self).dispensable_terminal_space_node_ids@.len() <= self.dispensable_terminal_space_node_ids@.len(),
                self.dispensable_terminal_space_node_ids@.subrange(
                    0,
                    old(self).dispensable_terminal_space_node_ids@.len() as int,
                ) == old(self).dispensable_terminal_space_node_ids@,
                old_map[terminal as int] != NO_NODE ==> {
                    &&& (self.nodes_to_process_stack@.len() > 0 ==> fuel > 0)
                    &&& graph_node_count(self.graph) == old_n
                    &&& graph_edges(self.graph) == old_edges
                    &&& *requirements == *old(requirements)
                    &&& self.space_node_path_stack@.len() == 0
                    &&& (self.nodes_to_process_stack@.len() == 0 ==> terminal_node_id == Some(
                        if indispensable {
                            old_map[terminal as int]
                        } else {
                            NO_NODE
                        },
                    ))
                    &&& (self.nodes_to_process_stack@.len() > 0 ==> self.nodes_to_process_stack@.len() == 1
                        && self.nodes_to_process_stack@[0].space_node_id == terminal
                        && self.nodes_to_process_stack@[0].maybe_child_node_id == NO_NODE
                        && terminal_node_id == (if indispensable {
                        None
                    } else {
                        Some(NO_NODE)
                    }))
                },
                indispensable && terminal_node_id is None ==> self.nodes_to_process_stack@.len() == 1 && (
                self.nodes_to_process_stack@[0].space_node_id == terminal || self.space_node_path_stack@.contains(terminal)),
                indispensable && terminal_node_id is Some ==> terminal_node_id.unwrap() < graph_node_count(self.graph)
                    && self.map.space_node_id_to_node_id@[terminal as int] == terminal_node_id.unwrap()
                    && !self.space_node_path_stack@.contains(terminal),
            decreases fuel,
        {
            if fuel == 0 {
                self.nodes_to_process_stack.truncate(0);
                self.space_node_path_stack.truncate(0);
                proof {
                    lemma_unmapped_shrink(*space, old_map, self.map.space_node_id_to_node_id@);
                }
                assert(graph_edges(self.graph).subrange(0, old_edges.len() as int) =~= old_edges);
                return Err(Error::RequirementCycleDetected);
            }
            fuel = fuel - 1;
            let ghost stack_before = self.nodes_to_process_stack@;
            let item = self.nodes_to_process_stack.pop().unwrap();
            let sid = item.space_node_id;
            assert(item == stack_before.last());
            let existing = self.map.space_node_id_to_node_id[sid];
            let room = node_bound(&self.graph) < 0xFFFF_FFFE && edge_bound(&self.graph) < 0xFFFF_FFFF;
            if !room && (existing == NO_NODE || item.maybe_child_node_id != NO_NODE) {
                self.nodes_to_process_stack.truncate(0);
                self.space_node_path_stack.truncate(0);
                proof {
                    lemma_unmapped_shrink(*space, old_map, self.map.space_node_id_to_node_id@);
                }
                assert(graph_edges(self.graph).subrange(0, old_edges.len() as int) =~= old_edges);
                return Err(Error::InternalError);
            }
            if existing != NO_NODE {
                if terminal_node_id.is_none() {
                    terminal_node_id = Some(existing);
                }
                self.handle_children(space, existing, item);
                assert(terminal_tracked(*self, terminal));
                continue;
            }
            let entries = space_edges_directed(space, sid, true);
            let mut parents: Vec<(usize, usize, u32)> = Vec::new();
            let mut i: usize = 0;
            while i < entries.len()
                invariant
                    i <= entries@.len(),
                    entries@ == list_entries(*space, space_lists(*space), sid, true),
                    space_wf_with(*space, cnt as nat),
                    sid < cnt,
                    parents@.len() == 0 ==> forall|k: int| 0 <= k < i ==> !is_parent_kind(#[trigger] entries@[k].3),
                    forall|k: int|
                        0 <= k < parents@.len() ==> (#[trigger] parents@[k]).1 < cnt && parents@[k].0 < space_edges(
                            *space,
                        ).len(),
                decreases entries@.len() - i,
            {
                proof {
                    lemma_entry(*space, cnt as nat, sid, true, i as int);
                }
                let (e, source, _t, kind) = entries[i];
                match kind {
                    SpaceEdge::CreateChildResolver => parents.push((e, source, RESOLVER_BASE_WEIGHT)),
                    SpaceEdge::CanProvide | SpaceEdge::Provides => parents.push((e, source, 0)),
                    _ => {},
                }
                i = i + 1;
            }
            proof {
                if parents@.len() == 0 {
                    let k = choose|k: int|
                        0 <= k < space_list(*space, sid, true).len() && is_parent_kind(
                            space_edge(*space, #[trigger] space_list(*space, sid, true)[k]).2,
                        );
                    lemma_entry(*space, cnt as nat, sid, true, k);
                    assert(!is_parent_kind(entries@[k].3));
                }
            }
            let ghost map_before = self.map.space_node_id_to_node_id@;
            let ghost path_before = self.space_node_path_stack@;
            if parents.len() >= 2 {
                let node_id = self.add(space, item);
                proof {
                    if map_before[terminal as int] == NO_NODE && !path_before.contains(terminal) && terminal != sid {
                        assert(stack_before.len() > 1);
                        assert(self.nodes_to_process_stack@[0] == stack_before[0]);
                    }
                }
                assert(terminal_tracked(*self, terminal));
                let ghost req_before = *requirements;
                let ids = requirements.collect(space, sid);
                if terminal_node_id.is_none() {
                    terminal_node_id = Some(node_id);
                    let req = requirements.forget_because_indispensable(ids);
                    self.extend_indispensable_terminals(space, &req);
                } else {
                    let r = requirements.ingest(space, node_id, sid, ids);
                    self.extend_dispensable_terminals(space, &requirements.required_space_nodes, r);
                }
                let ghost snap = *self;
                let mut k: usize = 0;
                while k < parents.len()
                    invariant
                        self.wf(*space),
                        *self == (SteinerInputBuilder { nodes_to_process_stack: self.nodes_to_process_stack, ..snap }),
                        self.nodes_to_process_stack@.len() >= snap.nodes_to_process_stack@.len(),
                        self.nodes_to_process_stack@.subrange(0, snap.nodes_to_process_stack@.len() as int)
                            == snap.nodes_to_process_stack@,
                        node_id < graph_node_count(self.graph),
                        forall|q: int|
                            0 <= q < parents@.len() ==> (#[trigger] parents@[q]).1 < cnt && parents@[q].0 < se,
                        cnt == space_nodes(*space).len(),
                        se == space_edges(*space).len(),
                    decreases parents@.len() - k,
                {
                    let (e, source, w) = parents[k];
                    let ghost st = self.nodes_to_process_stack@;
                    self.nodes_to_process_stack.push(
                        NodeToProcess {
                            space_node_id: source,
                            maybe_child_node_id: node_id,
                            maybe_child_space_edge_id: e,
                            maybe_child_edge_weight: w,
                        },
                    );
                    assert(self.nodes_to_process_stack@.subrange(0, snap.nodes_to_process_stack@.len() as int)
                        =~= st.subrange(0, snap.nodes_to_process_stack@.len() as int));
                    k = k + 1;
                }
                proof {
                    if snap.nodes_to_process_stack@.len() > 0 {
                        assert(self.nodes_to_process_stack@[0] == self.nodes_to_process_stack@.subrange(
                            0,
                            snap.nodes_to_process_stack@.len() as int,
                        )[0]);
                    }
                }
                assert(terminal_tracked(*self, terminal));
            } else {
                let ids = requirements.collect(space, sid);
                let (e0, s0, w0) = parents[0];
                if terminal_node_id.is_none() {
                    let req = requirements.forget_because_indispensable(ids);
                    self.extend_indispensable_terminals(space, &req);
                    self.space_node_path_stack.push(sid);
                    self.nodes_to_process_stack.push(NodeToProcess { space_node_id: s0, ..item });
                    proof {
                        let p = self.space_node_path_stack@;
                        if sid == terminal {
                            assert(p[p.len() - 1] == terminal);
                        } else {
                            assert(path_before.contains(terminal));
                            let j = choose|j: int| 0 <= j < path_before.len() && path_before[j] == terminal;
                            assert(p[j] == terminal);
                        }
                    }
                } else if ids.start < ids.end || w0 > 0 {
                    let node_id = self.add(space, item);
                    let r = requirements.ingest(space, node_id, sid, ids);
                    self.extend_dispensable_terminals(space, &requirements.required_space_nodes, r);
                    self.nodes_to_process_stack.push(
                        NodeToProcess {
                            space_node_id: s0,
                            maybe_child_node_id: node_id,
                            maybe_child_space_edge_id: e0,
                            maybe_child_edge_weight: w0,
                        },
                    );
                } else {
                    self.space_node_path_stack.push(sid);
                    self.nodes_to_process_stack.push(NodeToProcess { space_node_id: s0, ..item });
                    proof {
                        let p = self.space_node_path_stack@;
                        if sid == terminal {
                            assert(p[p.len() - 1] == terminal);
                        } else if path_before.contains(terminal) {
                            let j = choose|j: int| 0 <= j < path_before.len() && path_before[j] == terminal;
                            assert(p[j] == terminal);
                        }
                    }
                }
            }
        }
        proof {
            lemma_unmapped_shrink(*space, old_map, self.map.space_node_id_to_node_id@);
        }
        match terminal_node_id {
            Some(x) => Ok(x),
            None => Err(Error::InternalError),
        }
    }

    /// Appends the space nodes `req` to the indispensable terminals.
    fn extend_indispensable_terminals(&mut self, space: &Graph<SpaceNode, SpaceEdge>, req: &Vec<usize>)
        requires
            old(self).wf(*space),
            forall|k: int| 0 <= k < req@.len() ==> #[trigger] req@[k] < space_nodes(*space).len(),
        ensures
            *final(self) == (SteinerInputBuilder {
                indispensable_terminal_space_node_ids: final(self).indispensable_terminal_space_node_ids,
                ..*old(self)
            }),
            final(self).indispensable_terminal_space_node_ids@ == old(self).indispensable_terminal_space_node_ids@ + req@,
            final(self).wf(*space),
    {
        let ghost before = self.indispensable_terminal_space_node_ids@;
        let mut i: usize = 0;
        while i < req.len()
            invariant
                i <= req@.len(),
                self.wf(*space),
                forall|k: int| 0 <= k < req@.len() ==> #[trigger] req@[k] < space_nodes(*space).len(),
                self.indispensable_terminal_space_node_ids@ == before + req@.subrange(0, i as int),
                *self == (SteinerInputBuilder {
                    indispensable_terminal_space_node_ids: self.indispensable_terminal_space_node_ids,
                    ..*old(self)
                }),
            decreases req@.len() - i,
        {
            self.indispensable_terminal_space_node_ids.push(req[i]);
            assert(self.indispensable_terminal_space_node_ids@ =~= before + req@.subrange(0, i + 1));
            i = i + 1;
        }
        assert(req@.subrange(0, i as int) =~= req@);
    }

    /// Appends the space nodes of range `r` of `required` to the dispensable terminals.
    fn extend_dispensable_terminals(&mut self, space: &Graph<SpaceNode, SpaceEdge>, required: &Vec<usize>, r: IdRange)
        requires
            old(self).wf(*space),
            r.fits(required@.len()),
            forall|k: int| 0 <= k < required@.len() ==> #[trigger] required@[k] < space_nodes(*space).len(),
        ensures
            *final(self) == (SteinerInputBuilder {
                dispensable_terminal_space_node_ids: final(self).dispensable_terminal_space_node_ids,
                ..*old(self)
            }),
            final(self).dispensable_terminal_space_node_ids@ == old(self).dispensable_terminal_space_node_ids@ + r.of(
                required@,
            ),
            final(self).wf(*space),
    {
        let ghost before = self.dispensable_terminal_space_node_ids@;
        let mut i: usize = r.start;
        while i < r.end
            invariant
                r.start <= i <= r.end,
                r.fits(required@.len()),
                self.wf(*space),
                forall|k: int| 0 <= k < required@.len() ==> #[trigger] required@[k] < space_nodes(*space).len(),
                self.dispensable_terminal_space_node_ids@ == before + required@.subrange(r.start as int, i as int),
                *self == (SteinerInputBuilder {
                    dispensable_terminal_space_node_ids: self.dispensable_terminal_space_node_ids,
                    ..*old(self)
                }),
            decreases r.end - i,
        {
            self.dispensable_terminal_space_node_ids.push(required[i]);
            assert(self.dispensable_terminal_space_node_ids@ =~= before + required@.subrange(r.start as int, i + 1));
            i = i + 1;
        }
    }
}

} // verus!
