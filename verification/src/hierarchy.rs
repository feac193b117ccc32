use crate::forest::{
    adopt, forest, lemma_adopt_root, lemma_adopt_roots, lemma_adopt_under, lemma_adopt_under_new,
    lemma_root_of, lemma_roots_all, lemma_roots_bounds, lemma_under_child, root_of, roots,
    two_roots, under,
};
use crate::graph::{
    merge_fits, merge_nodes, merged, simple, SuperpixelEdge, SuperpixelGraph, SuperpixelNode,
};
use crate::queue::{EdgeQueue, QueueEntry};
use crate::scale::ZERO_SCALE;
use crate::topology::{adjacent, joins};
use std::collections::HashMap;
use vstd::prelude::*;

verus! {

/// A binary partition tree, node by node: the parent of each node (the node
/// itself for a root) and the scale at which each node was born (zero for
/// a leaf).
pub struct PartitionTree {
    pub parents: Vec<usize>,
    pub levels: Vec<u64>,
}

impl PartitionTree {
    /// Every node has a level, and its parent is the node itself or a node
    /// born after it.
    pub open spec fn wf(&self) -> bool {
        &&& self.parents@.len() == self.levels@.len()
        &&& forall|i: int|
            0 <= i < self.parents@.len() ==> i <= (#[trigger] self.parents@[i])
                < self.parents@.len()
    }
}

/// What a tree builder holds, as plain sequences: the graph's node
/// payloads, edge ends and edge payloads, and the tree grown so far.
pub struct TreeView {
    pub nodes: Seq<SuperpixelNode>,
    pub ends: Seq<(nat, nat)>,
    pub edges: Seq<SuperpixelEdge>,
    pub parents: Seq<usize>,
    pub levels: Seq<u64>,
}

/// One merge: the edge that was fused, its two end nodes, the node that was
/// made of them, the scale of the merge, and the number of the first of the
/// edges that were made for the new node (they run to the end of the
/// graph's edges and await a scale).
#[derive(Clone, Copy, Debug, PartialEq, Eq, Structural)]
pub struct Fusion {
    pub edge: usize,
    pub source: usize,
    pub target: usize,
    pub node: usize,
    pub level: u64,
    pub first_new_edge: usize,
}

/// The outcome of one step of the tree builder.
#[derive(Clone, Copy, Debug, PartialEq, Eq, Structural)]
pub enum Step {
    /// No edge is in use any more: the tree is complete.
    Done,
    /// Two regions were merged.
    Fused(Fusion),
    /// The cheapest edge cannot be fused, because the statistics of the
    /// merged region or the size of the graph would leave the range of
    /// their counters. Nothing was merged.
    OutOfRange,
}

/// Whether `x` is one of the two end nodes.
pub open spec fn touches(ends: (nat, nat), x: nat) -> bool {
    ends.0 == x || ends.1 == x
}

/// Whether edge `f` is in use and joins `x` and `n`.
pub open spec fn links(view: TreeView, f: int, x: nat, n: nat) -> bool {
    0 <= f < view.ends.len() && joins(view.ends[f], x, n) && view.edges[f].active
}

/// Whether an edge in use joins `x` and `n`.
pub open spec fn linked(view: TreeView, x: nat, n: nat) -> bool {
    exists|f: int| links(view, f, x, n)
}

/// Whether an edge in use joins `n` to `a` or to `b`.
pub open spec fn nearby(view: TreeView, a: nat, b: nat, n: nat) -> bool {
    linked(view, a, n) || linked(view, b, n)
}

/// The length of the edge in use that joins `x` and `n`, or zero if there
/// is none.
pub open spec fn link_length(view: TreeView, x: nat, n: nat) -> int {
    if linked(view, x, n) {
        view.edges[choose|f: int| links(view, f, x, n)].length as int
    } else {
        0
    }
}

/// Whether edge `e` is in use and no edge in use has a smaller scale.
pub open spec fn cheapest(view: TreeView, e: int) -> bool {
    &&& 0 <= e < view.edges.len()
    &&& view.edges[e].active
    &&& forall|f: int|
        0 <= f < view.edges.len() && (#[trigger] view.edges[f]).active ==> view.edges[e].weight
            <= view.edges[f].weight
}

/// Whether the two regions at the ends of edge `e` can be merged without
/// leaving the range of a counter: the merged statistics fit a node, the
/// summed length of the edges to each neighbour fits an edge, and the graph
/// has room for the new node and an edge to every other node.
pub open spec fn fits(view: TreeView, e: int) -> bool {
    let a = view.ends[e].0;
    let b = view.ends[e].1;
    &&& merge_fits(view.nodes[a as int], view.nodes[b as int], view.edges[e].length as int)
    &&& view.nodes.len() + 1 < u32::MAX
    &&& view.edges.len() + view.nodes.len() < u32::MAX
    &&& forall|n: nat|
        n != a && n != b ==> #[trigger] link_length(view, a, n) + link_length(view, b, n)
            <= u32::MAX
}

/// The view in which the edges from number `from` on carry the given
/// scales, in order.
pub open spec fn scaled(view: TreeView, from: int, weights: Seq<u64>) -> TreeView {
    TreeView {
        edges: Seq::new(
            view.edges.len(),
            |f: int|
                if from <= f < from + weights.len() {
                    SuperpixelEdge { weight: weights[f - from], ..view.edges[f] }
                } else {
                    view.edges[f]
                },
        ),
        ..view
    }
}

/// The edge `edge`, out of use.
pub open spec fn retired(edge: SuperpixelEdge) -> SuperpixelEdge {
    SuperpixelEdge { active: false, ..edge }
}

/// Whether `after` is `before` with the two end nodes of edge
/// `fusion.edge` merged.
///
/// The merged node is appended with the summed statistics and becomes the
/// parent of both end nodes and its own; its level is the scale of the
/// fused edge. The fused edge and every edge in use at either end node go
/// out of use; all other edges stay as they were. For every other node
/// that an edge in use joined to one of the end nodes, one new edge in use
/// joins it to the merged node, with the summed length of the edges it
/// replaces and the scale zero. No other edge is added.
pub open spec fn fused(before: TreeView, after: TreeView, fusion: Fusion) -> bool {
    let e = fusion.edge as int;
    let a = fusion.source as nat;
    let b = fusion.target as nat;
    let m = fusion.node as nat;
    let old_edges = before.edges.len() as int;
    &&& 0 <= e < old_edges
    &&& before.ends[e] == (a, b)
    &&& m == before.nodes.len()
    &&& fusion.level == before.edges[e].weight
    &&& fusion.first_new_edge == old_edges
    &&& after.nodes.len() == m + 1
    &&& after.nodes.take(m as int) == before.nodes
    &&& merged(
        before.nodes[a as int],
        before.nodes[b as int],
        before.edges[e].length as int,
        after.nodes[m as int],
    )
    &&& after.parents == before.parents.update(a as int, fusion.node).update(
        b as int,
        fusion.node,
    ).push(fusion.node)
    &&& after.levels == before.levels.push(fusion.level)
    &&& after.ends.len() == after.edges.len()
    &&& after.edges.len() >= old_edges
    &&& forall|g: int|
        0 <= g < old_edges ==> {
            &&& #[trigger] after.ends[g] == before.ends[g]
            &&& after.edges[g] == if g == e || (before.edges[g].active && (touches(
                before.ends[g],
                a,
            ) || touches(before.ends[g], b))) {
                retired(before.edges[g])
            } else {
                before.edges[g]
            }
        }
    &&& forall|g: int|
        old_edges <= g < after.edges.len() ==> {
            let n = (#[trigger] after.ends[g]).1;
            &&& after.ends[g].0 == m
            &&& n != a
            &&& n != b
            &&& n < m
            &&& nearby(before, a, b, n)
            &&& after.edges[g] == SuperpixelEdge {
                weight: ZERO_SCALE,
                length: (link_length(before, a, n) + link_length(before, b, n)) as u32,
                active: true,
            }
            &&& link_length(before, a, n) + link_length(before, b, n) <= u32::MAX
        }
    &&& forall|n: nat|
        n != a && n != b && #[trigger] nearby(before, a, b, n) ==> exists|g: int|
            old_edges <= g < after.edges.len() && (#[trigger] after.ends[g]).1 == n
}

/// Where no two edges join the same pair of nodes, the edge in use between
/// two nodes is the only one, and its length is the length of their link.
pub proof fn lemma_link_unique(view: TreeView, f: int, x: nat, n: nat)
    requires
        simple(view.ends),
        links(view, f, x, n),
    ensures
        linked(view, x, n),
        link_length(view, x, n) == view.edges[f].length,
        forall|g: int| links(view, g, x, n) ==> g == f,
{
    assert forall|g: int| links(view, g, x, n) implies g == f by {
        if g != f {
            assert(!joins(view.ends[g], view.ends[f].0, view.ends[f].1));
        }
    }
}

/// The edges in use that join one neighbour to the two nodes that are
/// about to merge: the neighbour, the edge to the first node and the edge
/// to the second, where there is one, and their summed length.
struct Group {
    neighbor: usize,
    length: u32,
    first: Option<usize>,
    second: Option<usize>,
}

/// Whether a group names a neighbour of `a` or `b` other than these two,
/// with the edges in use that join it to `a` that it knows of, and, once
/// `complete`, with those that join it to `b`.
spec fn group_ok(view: TreeView, a: nat, b: nat, group: Group, complete: bool) -> bool {
    let n = group.neighbor as nat;
    &&& n < view.nodes.len()
    &&& n != a
    &&& n != b
    &&& group.first.is_some() ==> links(view, group.first.unwrap() as int, a, n)
    &&& group.first.is_none() ==> !linked(view, a, n)
    &&& group.second.is_some() ==> links(view, group.second.unwrap() as int, b, n)
    &&& complete && group.second.is_none() ==> !linked(view, b, n)
    &&& group.first.is_some() || group.second.is_some()
    &&& group.length == (if group.first.is_some() {
        view.edges[group.first.unwrap() as int].length as int
    } else {
        0
    }) + (if group.second.is_some() {
        view.edges[group.second.unwrap() as int].length as int
    } else {
        0
    })
}

/// Whether the groups are sound and no two name the same neighbour.
spec fn groups_ok(view: TreeView, a: nat, b: nat, groups: Seq<Group>, complete: bool) -> bool {
    &&& forall|j: int| 0 <= j < groups.len() ==> group_ok(view, a, b, #[trigger] groups[j], complete)
    &&& forall|i: int, j: int|
        0 <= i < groups.len() && 0 <= j < groups.len() && i != j ==> (#[trigger] groups[i]).neighbor
            != (#[trigger] groups[j]).neighbor
}

/// Whether some group names the node `n`.
spec fn grouped(groups: Seq<Group>, n: nat) -> bool {
    exists|j: int| 0 <= j < groups.len() && (#[trigger] groups[j]).neighbor == n
}

/// Whether every node other than `a` and `b` that an edge in use joins to
/// `a` or `b` is named by a group.
spec fn all_grouped(view: TreeView, a: nat, b: nat, groups: Seq<Group>) -> bool {
    forall|n: nat| n != a && n != b && #[trigger] nearby(view, a, b, n) ==> grouped(groups, n)
}

/// Whether the group holds edge `f`.
spec fn holds(group: Group, f: int) -> bool {
    (group.first.is_some() && group.first.unwrap() == f) || (group.second.is_some()
        && group.second.unwrap() == f)
}

/// Whether some group holds edge `f`.
spec fn named(groups: Seq<Group>, f: int) -> bool {
    exists|j: int| 0 <= j < groups.len() && holds(#[trigger] groups[j], f)
}

/// The groups hold exactly the edges in use that touch `a` or `b`, but for
/// the edge between the two.
proof fn lemma_named(view: TreeView, e: int, a: nat, b: nat, groups: Seq<Group>)
    requires
        view.ends.len() == view.edges.len(),
        simple(view.ends),
        forall|f: int| 0 <= f < view.ends.len() ==> (#[trigger] view.ends[f]).0 != view.ends[f].1,
        0 <= e < view.ends.len(),
        view.ends[e] == (a, b),
        groups_ok(view, a, b, groups, true),
        all_grouped(view, a, b, groups),
    ensures
        !named(groups, e),
        forall|f: int|
            0 <= f < view.ends.len() && f != e ==> (#[trigger] named(groups, f) <==> (
            view.edges[f].active && (touches(view.ends[f], a) || touches(view.ends[f], b)))),
        forall|f: int| #[trigger] named(groups, f) ==> 0 <= f < view.ends.len(),
{
    assert forall|f: int| #[trigger] named(groups, f) implies 0 <= f < view.ends.len() && f != e
        && view.edges[f].active && (touches(view.ends[f], a) || touches(view.ends[f], b)) by {
        let j = choose|j: int| 0 <= j < groups.len() && holds(#[trigger] groups[j], f);
        assert(group_ok(view, a, b, groups[j], true));
    }
    assert forall|f: int|
        0 <= f < view.ends.len() && f != e && view.edges[f].active && (touches(view.ends[f], a)
            || touches(view.ends[f], b)) implies #[trigger] named(groups, f) by {
        assert(!joins(view.ends[f], view.ends[e].0, view.ends[e].1));
        let x = if touches(view.ends[f], a) {
            a
        } else {
            b
        };
        let n = if view.ends[f].0 == x {
            view.ends[f].1
        } else {
            view.ends[f].0
        };
        assert(links(view, f, x, n));
        lemma_link_unique(view, f, x, n);
        assert(nearby(view, a, b, n));
        let j = choose|j: int| 0 <= j < groups.len() && (#[trigger] groups[j]).neighbor == n;
        assert(group_ok(view, a, b, groups[j], true));
        assert(holds(groups[j], f));
    }
}

/// There are no more groups than nodes.
proof fn lemma_group_count(view: TreeView, a: nat, b: nat, groups: Seq<Group>)
    requires
        groups_ok(view, a, b, groups, true),
    ensures
        groups.len() <= view.nodes.len(),
{
    let names = Seq::new(groups.len(), |j: int| groups[j].neighbor as int);
    assert(names.no_duplicates()) by {
        assert forall|i: int, j: int|
            0 <= i < names.len() && 0 <= j < names.len() && i != j implies names[i]
            != names[j] by {
            assert(groups[i].neighbor != groups[j].neighbor);
        }
    }
    names.unique_seq_to_set();
    vstd::set_lib::lemma_int_range(0, view.nodes.len() as int);
    assert(names.to_set().subset_of(vstd::set_lib::set_int_range(0, view.nodes.len() as int))) by {
        assert forall|n: int| names.to_set().contains(n) implies vstd::set_lib::set_int_range(
            0,
            view.nodes.len() as int,
        ).contains(n) by {
            let j = choose|j: int| 0 <= j < names.len() && names[j] == n;
            assert(group_ok(view, a, b, groups[j], true));
        }
    }
    vstd::set_lib::lemma_len_subset(
        names.to_set(),
        vstd::set_lib::set_int_range(0, view.nodes.len() as int),
    );
}

/// Where the groups are complete, the summed lengths of the edges to every
/// neighbour fit the length of an edge.
proof fn lemma_lengths_fit(view: TreeView, a: nat, b: nat, groups: Seq<Group>)
    requires
        simple(view.ends),
        groups_ok(view, a, b, groups, true),
        all_grouped(view, a, b, groups),
    ensures
        forall|n: nat|
            n != a && n != b ==> #[trigger] link_length(view, a, n) + link_length(view, b, n)
                <= u32::MAX,
        forall|j: int|
            0 <= j < groups.len() ==> (#[trigger] groups[j]).length == link_length(
                view,
                a,
                groups[j].neighbor as nat,
            ) + link_length(view, b, groups[j].neighbor as nat),
{
    assert forall|j: int| 0 <= j < groups.len() implies (#[trigger] groups[j]).length
        == link_length(view, a, groups[j].neighbor as nat) + link_length(
        view,
        b,
        groups[j].neighbor as nat,
    ) by {
        let group = groups[j];
        assert(group_ok(view, a, b, group, true));
        if group.first.is_some() {
            lemma_link_unique(view, group.first.unwrap() as int, a, group.neighbor as nat);
        }
        if group.second.is_some() {
            lemma_link_unique(view, group.second.unwrap() as int, b, group.neighbor as nat);
        }
    }
    assert forall|n: nat| n != a && n != b implies #[trigger] link_length(view, a, n)
        + link_length(view, b, n) <= u32::MAX by {
        if nearby(view, a, b, n) {
            let j = choose|j: int| 0 <= j < groups.len() && (#[trigger] groups[j]).neighbor == n;
            assert(groups[j].length == link_length(view, a, n) + link_length(view, b, n));
        }
    }
}

/// Whether the index gives, for every neighbour that a group names, the
/// position of that group, and nothing else.
spec fn indexed(groups: Seq<Group>, index: Map<usize, usize>) -> bool {
    &&& forall|n: usize| #[trigger]
        index.contains_key(n) ==> index[n] < groups.len() && groups[index[n] as int].neighbor == n
    &&& forall|j: int| 0 <= j < groups.len() ==> index.contains_key((#[trigger] groups[j]).neighbor)
}

/// The position of the group that names `n`, if there is one.
fn find_group(groups: &Vec<Group>, index: &HashMap<usize, usize>, n: usize) -> (res: Option<usize>)
    requires
        indexed(groups@, index@),
    ensures
        res.is_some() ==> res.unwrap() < groups@.len() && groups@[res.unwrap() as int].neighbor
            == n,
        res.is_none() ==> !grouped(groups@, n as nat),
{
    match index.get(&n) {
        Some(position) => {
            assert(index@.contains_key(n) && index@[n] == *position);
            Some(*position)
        },
        None => {
            assert(!index@.contains_key(n));
            None
        },
    }
}

/// Adds a group for a neighbour that no group names yet, and notes its
/// position in the index.
fn add_group(groups: &mut Vec<Group>, index: &mut HashMap<usize, usize>, group: Group)
    requires
        indexed(old(groups)@, old(index)@),
        !grouped(old(groups)@, group.neighbor as nat),
    ensures
        final(groups)@ == old(groups)@.push(group),
        indexed(final(groups)@, final(index)@),
{
    let ghost before = groups@;
    let ghost noted = index@;
    let n = group.neighbor;
    index.insert(n, groups.len());
    groups.push(group);
    proof {
        assert forall|m: usize| #[trigger] index@.contains_key(m) implies index@[m] < groups@.len()
            && groups@[index@[m] as int].neighbor == m by {
            if m != n {
                assert(noted.contains_key(m));
                assert(groups@[noted[m] as int] == before[noted[m] as int]);
            }
        }
        assert forall|j: int| 0 <= j < groups@.len() implies index@.contains_key(
            (#[trigger] groups@[j]).neighbor,
        ) by {
            if j < before.len() {
                assert(noted.contains_key(before[j].neighbor));
            }
        }
    }
}

/// Puts a group in the place of one that names the same neighbour.
fn replace_group(groups: &mut Vec<Group>, index: &HashMap<usize, usize>, j: usize, group: Group)
    requires
        indexed(old(groups)@, index@),
        j < old(groups)@.len(),
        old(groups)@[j as int].neighbor == group.neighbor,
    ensures
        final(groups)@ == old(groups)@.update(j as int, group),
        indexed(final(groups)@, index@),
{
    let ghost before = groups@;
    groups[j] = group;
    proof {
        assert forall|m: usize| #[trigger] index@.contains_key(m) implies index@[m] < groups@.len()
            && groups@[index@[m] as int].neighbor == m by {
            assert(before[index@[m] as int].neighbor == m);
        }
        assert forall|k: int| 0 <= k < groups@.len() implies index@.contains_key(
            (#[trigger] groups@[k]).neighbor,
        ) by {
            assert(index@.contains_key(before[k].neighbor));
        }
    }
}

/// What a tree builder remembers of its start and of its merges, for the
/// proof that its trees are the connected components of the graph it
/// started from: the ends of the edges of that graph and which of them were
/// in use; for every edge, an edge of the start that lies under it; and for
/// every merged node its two children and an edge of the start that lies
/// between them.
pub struct Trace {
    pub origin: Seq<(nat, nat)>,
    pub in_use: Seq<bool>,
    pub witness: Seq<int>,
    pub bridge: Seq<int>,
    pub children: Seq<(nat, nat)>,
}

/// Whether one node of the pair lies under `x` and the other under `y`.
pub open spec fn spans(parents: Seq<usize>, pair: (nat, nat), x: nat, y: nat) -> bool {
    (under(parents, pair.0 as int, x as int) && under(parents, pair.1 as int, y as int)) || (under(
        parents,
        pair.0 as int,
        y as int,
    ) && under(parents, pair.1 as int, x as int))
}

/// Whether `o` numbers an edge that was in use at the start.
pub open spec fn starting(trace: Trace, o: int) -> bool {
    0 <= o < trace.origin.len() && trace.in_use[o]
}

/// Whether the two ends of the starting edge `o` have one root by now, or
/// two roots that an edge in use joins.
pub open spec fn carried(view: TreeView, trace: Trace, o: int) -> bool {
    let ru = root_of(view.parents, trace.origin[o].0 as int);
    let rv = root_of(view.parents, trace.origin[o].1 as int);
    ru == rv || linked(view, ru as nat, rv as nat)
}

/// Whether the trace fits the view: every edge in use lies over an edge of
/// the start, every merged node has two children with an edge of the start
/// between them, no node has other children, every edge of the start is
/// carried, and the nodes are twice the leaves less the roots.
#[verifier::opaque]
pub open spec fn grounded(view: TreeView, leaves: int, trace: Trace) -> bool {
    &&& trace.origin.len() == trace.in_use.len()
    &&& forall|o: int|
        0 <= o < trace.origin.len() ==> (#[trigger] trace.origin[o]).0 < leaves
            && trace.origin[o].1 < leaves
    &&& trace.witness.len() == view.edges.len()
    &&& forall|g: int|
        0 <= g < view.edges.len() && (#[trigger] view.edges[g]).active ==> starting(
            trace,
            trace.witness[g],
        ) && spans(view.parents, trace.origin[trace.witness[g]], view.ends[g].0, view.ends[g].1)
    &&& trace.bridge.len() == view.nodes.len()
    &&& trace.children.len() == view.nodes.len()
    &&& forall|m: int|
        leaves <= m < view.nodes.len() ==> {
            &&& (#[trigger] trace.children[m]).0 < m
            &&& trace.children[m].1 < m
            &&& starting(trace, trace.bridge[m])
            &&& spans(
                view.parents,
                trace.origin[trace.bridge[m]],
                trace.children[m].0,
                trace.children[m].1,
            )
        }
    &&& forall|c: int|
        0 <= c < view.nodes.len() && (#[trigger] view.parents[c]) != c ==> {
            &&& leaves <= view.parents[c]
            &&& c == trace.children[view.parents[c] as int].0 || c
                == trace.children[view.parents[c] as int].1
        }
    &&& forall|o: int| #[trigger] starting(trace, o) ==> carried(view, trace, o)
    &&& view.parents.len() + roots(view.parents, view.parents.len() as int) == 2 * leaves
}

/// The trace of a fresh builder: every edge is its own witness.
pub open spec fn first_trace(view: TreeView) -> Trace {
    Trace {
        origin: view.ends,
        in_use: Seq::new(view.edges.len(), |e: int| view.edges[e].active),
        witness: Seq::new(view.edges.len(), |e: int| e),
        bridge: Seq::new(view.nodes.len(), |n: int| 0int),
        children: Seq::new(view.nodes.len(), |n: int| (0nat, 0nat)),
    }
}

/// The edge of the start that lies under the edge in use between `n` and
/// one of `a` and `b`.
pub open spec fn inherited(view: TreeView, trace: Trace, a: nat, b: nat, n: nat) -> int {
    if linked(view, a, n) {
        trace.witness[choose|f: int| links(view, f, a, n)]
    } else {
        trace.witness[choose|f: int| links(view, f, b, n)]
    }
}

/// The trace after a merge: the new edges inherit their witnesses from
/// the edges they replace, and the merged node gets the witness of the
/// fused edge as the edge between its children.
pub open spec fn next_trace(before: TreeView, after: TreeView, fusion: Fusion, trace: Trace) -> Trace {
    let a = fusion.source as nat;
    let b = fusion.target as nat;
    Trace {
        witness: Seq::new(
            after.edges.len(),
            |g: int|
                if g < before.edges.len() {
                    trace.witness[g]
                } else {
                    inherited(before, trace, a, b, after.ends[g].1)
                },
        ),
        bridge: trace.bridge.push(trace.witness[fusion.edge as int]),
        children: trace.children.push((a, b)),
        ..trace
    }
}

/// A fresh builder's trace fits its view.
proof fn lemma_grounded_first(view: TreeView, leaves: int, channels: int)
    requires
        tree_wf(view, leaves, channels),
        leaves == view.nodes.len(),
        forall|i: int| 0 <= i < view.parents.len() ==> (#[trigger] view.parents[i]) == i,
        forall|e: int|
            0 <= e < view.ends.len() ==> (#[trigger] view.ends[e]).0 < view.nodes.len()
                && view.ends[e].1 < view.nodes.len(),
    ensures
        grounded(view, leaves, first_trace(view)),
{
    reveal(grounded);
    let trace = first_trace(view);
    lemma_roots_all(view.parents, view.parents.len() as int);
    assert forall|o: int| #[trigger] starting(trace, o) implies carried(view, trace, o) by {
        let u = trace.origin[o].0;
        let v = trace.origin[o].1;
        assert(view.ends[o].0 < view.nodes.len());
        assert(view.parents[u as int] == u);
        assert(view.parents[v as int] == v);
        assert(root_of(view.parents, u as int) == u);
        assert(root_of(view.parents, v as int) == v);
        assert(links(view, o, u, v));
    }
    assert forall|g: int|
        0 <= g < view.edges.len() && (#[trigger] view.edges[g]).active implies starting(
        trace,
        trace.witness[g],
    ) && spans(view.parents, trace.origin[trace.witness[g]], view.ends[g].0, view.ends[g].1) by {
        assert(under(view.parents, view.ends[g].0 as int, view.ends[g].0 as int));
        assert(under(view.parents, view.ends[g].1 as int, view.ends[g].1 as int));
    }
}

/// Scales do not matter to the trace.
proof fn lemma_grounded_scaled(view: TreeView, from: int, weights: Seq<u64>, leaves: int, trace: Trace)
    requires
        view.ends.len() == view.edges.len(),
        grounded(view, leaves, trace),
    ensures
        grounded(scaled(view, from, weights), leaves, trace),
{
    reveal(grounded);
    let after = scaled(view, from, weights);
    assert forall|g: int|
        0 <= g < after.edges.len() && (#[trigger] after.edges[g]).active implies starting(
        trace,
        trace.witness[g],
    ) && spans(after.parents, trace.origin[trace.witness[g]], after.ends[g].0, after.ends[g].1) by {
        assert(view.edges[g].active);
    }
    assert forall|o: int| #[trigger] starting(trace, o) implies carried(after, trace, o) by {
        assert(carried(view, trace, o));
        let ru = root_of(view.parents, trace.origin[o].0 as int);
        let rv = root_of(view.parents, trace.origin[o].1 as int);
        if ru != rv {
            let x = ru as nat;
            let y = rv as nat;
            let f = choose|f: int| links(view, f, x, y);
            assert(links(after, f, x, y));
        }
    }
}

/// A merge keeps the trace fitting.
proof fn lemma_grounded_step(
    before: TreeView,
    after: TreeView,
    fusion: Fusion,
    leaves: int,
    channels: int,
    trace: Trace,
)
    requires
        tree_wf(before, leaves, channels),
        simple(before.ends),
        forall|e: int|
            0 <= e < before.ends.len() ==> {
                &&& (#[trigger] before.ends[e]).0 < before.nodes.len()
                &&& before.ends[e].1 < before.nodes.len()
                &&& before.ends[e].0 != before.ends[e].1
            },
        before.nodes.len() < usize::MAX,
        grounded(before, leaves, trace),
        before.edges[fusion.edge as int].active,
        fused(before, after, fusion),
    ensures
        grounded(after, leaves, next_trace(before, after, fusion, trace)),
{
    reveal(grounded);
    let next = next_trace(before, after, fusion, trace);
    let e = fusion.edge as int;
    let a = fusion.source as nat;
    let b = fusion.target as nat;
    let m = fusion.node as nat;
    let old_edges = before.edges.len() as int;
    let parents = before.parents;
    assert(forest(parents));
    assert(two_roots(parents, a as int, b as int));
    assert(after.parents =~= adopt(parents, a as int, b as int));
    lemma_adopt_roots(parents, a as int, b as int);
    // Every edge in use lies over an edge of the start.
    assert forall|g: int|
        0 <= g < after.edges.len() && (#[trigger] after.edges[g]).active implies starting(
        next,
        next.witness[g],
    ) && spans(after.parents, next.origin[next.witness[g]], after.ends[g].0, after.ends[g].1) by {
        if g < old_edges {
            assert(after.ends[g] == before.ends[g]);
            assert(before.edges[g].active);
            let o = trace.witness[g];
            let pair = trace.origin[o];
            assert(spans(parents, pair, before.ends[g].0, before.ends[g].1));
            lemma_spans_kept(parents, a as int, b as int, pair, before.ends[g].0, before.ends[g].1);
        } else {
            let n = after.ends[g].1;
            assert(nearby(before, a, b, n));
            let x = if linked(before, a, n) {
                a
            } else {
                b
            };
            let f = choose|f: int| links(before, f, x, n);
            assert(before.edges[f].active);
            let o = trace.witness[f];
            assert(next.witness[g] == o);
            let pair = trace.origin[o];
            assert(spans(parents, pair, before.ends[f].0, before.ends[f].1));
            assert(spans(parents, pair, x, n));
            lemma_spans_lifted(parents, a as int, b as int, pair, x, n);
        }
    }
    // Every merged node has an edge of the start between its children.
    assert forall|k: int| leaves <= k < after.nodes.len() implies {
        &&& (#[trigger] next.children[k]).0 < k
        &&& next.children[k].1 < k
        &&& starting(next, next.bridge[k])
        &&& spans(after.parents, next.origin[next.bridge[k]], next.children[k].0, next.children[k].1)
    } by {
        if k < m {
            assert(next.children[k] == trace.children[k]);
            lemma_spans_kept(
                parents,
                a as int,
                b as int,
                trace.origin[trace.bridge[k]],
                trace.children[k].0,
                trace.children[k].1,
            );
        } else {
            let o = trace.witness[e];
            assert(spans(parents, trace.origin[o], a, b));
            lemma_spans_kept(parents, a as int, b as int, trace.origin[o], a, b);
        }
    }
    // No node has other children.
    assert forall|c: int|
        0 <= c < after.nodes.len() && (#[trigger] after.parents[c]) != c implies {
        &&& leaves <= after.parents[c]
        &&& c == next.children[after.parents[c] as int].0 || c
            == next.children[after.parents[c] as int].1
    } by {
        if c == a || c == b {
        } else {
            assert(after.parents[c] == parents[c]);
            assert(next.children[parents[c] as int] == trace.children[parents[c] as int]);
        }
    }
    // Every edge of the start is carried.
    assert forall|o: int| #[trigger] starting(next, o) implies carried(after, next, o) by {
        assert(starting(trace, o));
        assert(carried(before, trace, o));
        let u = trace.origin[o].0 as int;
        let v = trace.origin[o].1 as int;
        let ru = root_of(parents, u);
        let rv = root_of(parents, v);
        lemma_root_of(parents, u);
        lemma_root_of(parents, v);
        lemma_adopt_root(parents, a as int, b as int, u);
        lemma_adopt_root(parents, a as int, b as int, v);
        if ru != rv {
            let rx = ru as nat;
            let ry = rv as nat;
            let f = choose|f: int| links(before, f, rx, ry);
            let ru_in = ru == a || ru == b;
            let rv_in = rv == a || rv == b;
            assert(root_of(after.parents, u) == if ru_in {
                m as int
            } else {
                ru
            });
            assert(root_of(after.parents, v) == if rv_in {
                m as int
            } else {
                rv
            });
            assert(next.origin[o] == trace.origin[o]);
            if ru_in && rv_in {
            } else if ru_in || rv_in {
                let n = if ru_in {
                    rv as nat
                } else {
                    ru as nat
                };
                let x = if ru_in {
                    ru as nat
                } else {
                    rv as nat
                };
                assert(links(before, f, x, n));
                assert(nearby(before, a, b, n));
                let g = choose|g: int|
                    old_edges <= g < after.edges.len() && (#[trigger] after.ends[g]).1 == n;
                assert(after.ends[g].0 == m);
                assert(after.edges[g].active);
                assert(links(after, g, m, n));
                assert(linked(after, m, n));
                assert(links(after, g, n, m));
                assert(linked(after, n, m));
            } else {
                assert(!touches(before.ends[f], a));
                assert(!touches(before.ends[f], b));
                assert(f != e);
                assert(after.ends[f] == before.ends[f]);
                assert(after.edges[f] == before.edges[f]);
                assert(links(after, f, rx, ry));
                assert(linked(after, rx, ry));
            }
        }
    }
}

/// A pair that spanned two nodes before two roots got a common parent
/// spans them afterwards.
proof fn lemma_spans_kept(parents: Seq<usize>, a: int, b: int, pair: (nat, nat), x: nat, y: nat)
    requires
        forest(parents),
        two_roots(parents, a, b),
        spans(parents, pair, x, y),
    ensures
        spans(adopt(parents, a, b), pair, x, y),
{
    if under(parents, pair.0 as int, x as int) && under(parents, pair.1 as int, y as int) {
        lemma_adopt_under(parents, a, b, pair.0 as int, x as int);
        lemma_adopt_under(parents, a, b, pair.1 as int, y as int);
    } else {
        lemma_adopt_under(parents, a, b, pair.0 as int, y as int);
        lemma_adopt_under(parents, a, b, pair.1 as int, x as int);
    }
}

/// A pair that spanned one of the two roots and another node spans the new
/// parent and that node.
proof fn lemma_spans_lifted(parents: Seq<usize>, a: int, b: int, pair: (nat, nat), x: nat, n: nat)
    requires
        forest(parents),
        two_roots(parents, a, b),
        x == a || x == b,
        spans(parents, pair, x, n),
    ensures
        spans(adopt(parents, a, b), pair, parents.len(), n),
{
    if under(parents, pair.0 as int, x as int) && under(parents, pair.1 as int, n as int) {
        lemma_adopt_under_new(parents, a, b, pair.0 as int);
        lemma_adopt_under(parents, a, b, pair.1 as int, n as int);
    } else {
        lemma_adopt_under_new(parents, a, b, pair.1 as int);
        lemma_adopt_under(parents, a, b, pair.0 as int, n as int);
    }
}

/// Any labelling of the leaves that is constant along the edges of the
/// start is constant on the leaves under each node.
proof fn lemma_constant_under(
    view: TreeView,
    leaves: int,
    trace: Trace,
    labelling: spec_fn(nat) -> int,
    x: int,
    u: int,
    v: int,
)
    requires
        forest(view.parents),
        view.parents.len() == view.nodes.len(),
        grounded(view, leaves, trace),
        forall|o: int| #[trigger]
            starting(trace, o) ==> labelling(trace.origin[o].0) == labelling(trace.origin[o].1),
        0 <= u < leaves,
        0 <= v < leaves,
        0 <= x < view.nodes.len(),
        under(view.parents, u, x),
        under(view.parents, v, x),
    ensures
        labelling(u as nat) == labelling(v as nat),
    decreases x,
{
    reveal(grounded);
    let parents = view.parents;
    if u == x || v == x {
        // A leaf has no children: both are the leaf itself.
        if u != x {
            let c = lemma_under_child(parents, u, x);
            assert(parents[c] != c);
        }
        if v != x {
            let c = lemma_under_child(parents, v, x);
            assert(parents[c] != c);
        }
    } else {
        let cu = lemma_under_child(parents, u, x);
        let cv = lemma_under_child(parents, v, x);
        assert(parents[cu] != cu);
        assert(parents[cv] != cv);
        let a = trace.children[x].0 as int;
        let b = trace.children[x].1 as int;
        if cu == cv {
            lemma_constant_under(view, leaves, trace, labelling, cu, u, v);
        } else {
            let o = trace.bridge[x];
            let p = trace.origin[o].0 as int;
            let q = trace.origin[o].1 as int;
            assert(starting(trace, o));
            assert(spans(parents, trace.origin[o], a as nat, b as nat));
            assert(labelling(p as nat) == labelling(q as nat));
            // One end of the bridge lies under each child.
            assert(cu == a || cu == b);
            assert(cv == a || cv == b);
            let straight = under(parents, p, a) && under(parents, q, b);
            let pu = if straight == (cu == a) {
                p
            } else {
                q
            };
            let pv = if straight == (cu == a) {
                q
            } else {
                p
            };
            assert(under(parents, pu, cu));
            assert(under(parents, pv, cv));
            lemma_constant_under(view, leaves, trace, labelling, cu, u, pu);
            lemma_constant_under(view, leaves, trace, labelling, cv, v, pv);
        }
    }
}

/// Grows a binary partition tree from a region adjacency graph, one merge
/// at a time.
///
/// The builder decides which two regions merge next and keeps the graph
/// and the tree; what a merge costs is decided outside. Each edge is given
/// its scale once: the edges of the graph at first, and after each merge
/// the edges made for the merged node. A step takes the scales of the
/// edges that await one, fuses an edge in use of least scale, and reports
/// the merge.
pub struct TreeBuilder {
    graph: SuperpixelGraph,
    queue: EdgeQueue,
    parents: Vec<usize>,
    levels: Vec<u64>,
    leaves: usize,
    channels: usize,
    queued: usize,
    floor: u64,
    trace: Ghost<Trace>,
}

impl View for TreeBuilder {
    type V = TreeView;

    closed spec fn view(&self) -> TreeView {
        TreeView {
            nodes: self.graph.nodes(),
            ends: self.graph.ends(),
            edges: self.graph.edges(),
            parents: self.parents@,
            levels: self.levels@,
        }
    }
}

/// Whether every node holds `channels` sums and `channels` sums of squares.
pub open spec fn uniform(nodes: Seq<SuperpixelNode>, channels: int) -> bool {
    forall|n: int|
        0 <= n < nodes.len() ==> {
            &&& (#[trigger] nodes[n]).values@.len() == channels
            &&& nodes[n].values_sq@.len() == channels
        }
}

/// Whether the graph and the tree of a view belong together: every node
/// has a parent, itself or a node born after it, and a level; the first
/// `leaves` nodes have level zero; every edge in use joins two roots; and
/// all nodes have `channels` channels.
pub open spec fn tree_wf(view: TreeView, leaves: int, channels: int) -> bool {
    &&& view.parents.len() == view.nodes.len()
    &&& view.levels.len() == view.nodes.len()
    &&& view.ends.len() == view.edges.len()
    &&& 0 <= leaves <= view.nodes.len()
    &&& forall|i: int|
        0 <= i < view.parents.len() ==> i <= (#[trigger] view.parents[i]) < view.parents.len()
    &&& forall|i: int| 0 <= i < leaves ==> (#[trigger] view.levels[i]) == ZERO_SCALE
    &&& forall|e: int|
        0 <= e < view.edges.len() && (#[trigger] view.edges[e]).active ==> {
            &&& view.parents[view.ends[e].0 as int] == view.ends[e].0
            &&& view.parents[view.ends[e].1 as int] == view.ends[e].1
        }
    &&& uniform(view.nodes, channels)
}

impl TreeBuilder {
    /// The graph as it stands.
    pub closed spec fn graph(&self) -> SuperpixelGraph {
        self.graph
    }

    /// The number of leaves: the nodes of the graph the builder started
    /// from.
    pub closed spec fn leaves(&self) -> nat {
        self.leaves as nat
    }

    /// The number of values each node holds per statistic.
    pub closed spec fn channels(&self) -> nat {
        self.channels as nat
    }

    /// The number of the first edge that awaits a scale; the edges from it
    /// on were made by the last merge, or are all edges of a fresh builder.
    pub closed spec fn queued(&self) -> nat {
        self.queued as nat
    }

    /// The scale of the last merge, or zero before the first.
    pub closed spec fn floor(&self) -> u64 {
        self.floor
    }

    /// The ends of the edges of the graph the builder started from.
    pub closed spec fn origin(&self) -> Seq<(nat, nat)> {
        self.trace@.origin
    }

    /// Which edges of the graph the builder started from were in use.
    pub closed spec fn origin_in_use(&self) -> Seq<bool> {
        self.trace@.in_use
    }

    /// The builder remembers how its trees grew from the graph it started
    /// with. This holds of a fresh builder and is kept by every step.
    pub closed spec fn grounded(&self) -> bool {
        grounded(self@, self.leaves as int, self.trace@)
    }

    /// The queue holds an entry for every edge in use that has its scale,
    /// but perhaps for edge `skip`, and no entry contradicts an edge in
    /// use.
    pub closed spec fn queue_covers(&self, skip: int) -> bool {
        &&& self.queue.wf()
        &&& forall|entry: QueueEntry| #[trigger]
            self.queue@.contains(entry) ==> {
                &&& entry.edge < self.queued
                &&& self.graph.edges()[entry.edge as int].active ==> entry.weight
                    == self.graph.edges()[entry.edge as int].weight
            }
        &&& forall|e: int|
            0 <= e < self.queued && e != skip && (#[trigger] self.graph.edges()[e]).active
                ==> self.queue@.contains(
                QueueEntry { weight: self.graph.edges()[e].weight, edge: e as usize },
            )
    }

    /// The graph and the tree belong together.
    pub open spec fn shape(&self) -> bool {
        &&& self.graph().wf()
        &&& self@.nodes == self.graph().nodes()
        &&& self@.ends == self.graph().ends()
        &&& self@.edges == self.graph().edges()
        &&& tree_wf(self@, self.leaves() as int, self.channels() as int)
        &&& self.queued() <= self@.edges.len()
    }

    /// The builder is well formed.
    pub open spec fn wf(&self) -> bool {
        self.shape() && self.queue_covers(-1)
    }

    /// Whether the scales have come in order so far: no queued entry and no
    /// level lies below an earlier level, so that the levels of the tree do
    /// not decrease from node to node.
    pub closed spec fn ordered(&self) -> bool {
        &&& forall|entry: QueueEntry| #[trigger]
            self.queue@.contains(entry) ==> self.floor <= entry.weight
        &&& forall|i: int| 0 <= i < self.levels@.len() ==> (#[trigger] self.levels@[i]) <= self.floor
        &&& forall|i: int, j: int|
            0 <= i <= j < self.levels@.len() ==> (#[trigger] self.levels@[i]) <= (
            #[trigger] self.levels@[j])
        &&& ZERO_SCALE <= self.floor
    }

    /// Where the scales have come in order, the levels of the tree do not
    /// decrease from node to node, and none exceeds the scale of the last
    /// merge.
    pub proof fn lemma_ordered_levels(&self)
        requires
            self.ordered(),
        ensures
            forall|i: int, j: int|
                0 <= i <= j < self@.levels.len() ==> (#[trigger] self@.levels[i]) <= (
                #[trigger] self@.levels[j]),
            forall|i: int| 0 <= i < self@.levels.len() ==> (#[trigger] self@.levels[i]) <= self.floor(),
    {
    }

    /// Once no edge is in use, two regions that an edge in use joined at the
    /// start have the same root: every connected component of the starting
    /// graph lies in one tree.
    pub proof fn lemma_components_in_one_tree(&self)
        requires
            self.wf(),
            self.grounded(),
            forall|e: int| 0 <= e < self@.edges.len() ==> !(#[trigger] self@.edges[e]).active,
        ensures
            self.origin().len() == self.origin_in_use().len(),
            forall|o: int|
                0 <= o < self.origin().len() && #[trigger] self.origin_in_use()[o] ==> root_of(
                    self@.parents,
                    self.origin()[o].0 as int,
                ) == root_of(self@.parents, self.origin()[o].1 as int),
    {
        reveal(grounded);
        assert forall|o: int|
            0 <= o < self.origin().len() && #[trigger] self.origin_in_use()[o] implies root_of(
            self@.parents,
            self.origin()[o].0 as int,
        ) == root_of(self@.parents, self.origin()[o].1 as int) by {
            assert(starting(self.trace@, o));
            assert(carried(self@, self.trace@, o));
        }
    }

    /// Two leaves with the same root lie in one connected component of the
    /// starting graph: any labelling of the leaves that is constant along
    /// the edges that were in use at the start gives them the same label.
    /// So every tree lies in one connected component.
    pub proof fn lemma_tree_in_one_component(&self, labelling: spec_fn(nat) -> int, u: nat, v: nat)
        requires
            self.wf(),
            self.grounded(),
            self.origin().len() == self.origin_in_use().len(),
            forall|o: int|
                0 <= o < self.origin().len() && #[trigger] self.origin_in_use()[o] ==> labelling(
                    self.origin()[o].0,
                ) == labelling(self.origin()[o].1),
            u < self.leaves(),
            v < self.leaves(),
            root_of(self@.parents, u as int) == root_of(self@.parents, v as int),
        ensures
            labelling(u) == labelling(v),
    {
        reveal(grounded);
        lemma_root_of(self@.parents, u as int);
        lemma_root_of(self@.parents, v as int);
        assert forall|o: int| #[trigger] starting(self.trace@, o) implies labelling(
            self.trace@.origin[o].0,
        ) == labelling(self.trace@.origin[o].1) by {
            assert(self.origin_in_use()[o]);
        }
        lemma_constant_under(
            self@,
            self.leaves as int,
            self.trace@,
            labelling,
            root_of(self@.parents, u as int),
            u as int,
            v as int,
        );
    }

    /// The tree has twice as many nodes as leaves, less one for each of its
    /// roots: every merge adds a node and makes one root of two. A tree
    /// with a single root over `n` leaves has `2 n - 1` nodes.
    pub proof fn lemma_node_count(&self)
        requires
            self.grounded(),
        ensures
            self@.parents.len() == 2 * self.leaves() - roots(
                self@.parents,
                self@.parents.len() as int,
            ),
            0 <= roots(self@.parents, self@.parents.len() as int) <= self@.parents.len(),
    {
        reveal(grounded);
        lemma_roots_bounds(self@.parents, self@.parents.len() as int);
    }

    /// Starts a tree on the given graph: every node is a leaf and a root,
    /// and every edge awaits its scale. Returns nothing if two nodes
    /// differ in the number of their channels.
    pub fn new(graph: SuperpixelGraph) -> (res: Option<TreeBuilder>)
        requires
            graph.wf(),
        ensures
            res.is_some() <==> exists|channels: int| #[trigger] uniform(graph.nodes(), channels),
            res.is_some() ==> {
                let builder = res.unwrap();
                &&& builder.wf()
                &&& builder.ordered()
                &&& builder.grounded()
                &&& builder.origin() == graph.ends()
                &&& builder.origin_in_use() == Seq::new(
                    graph.edges().len(),
                    |e: int| graph.edges()[e].active,
                )
                &&& builder.graph() == graph
                &&& builder.leaves() == graph.nodes().len()
                &&& builder.queued() == 0
                &&& builder.floor() == ZERO_SCALE
                &&& builder@.parents == Seq::new(graph.nodes().len(), |i: int| i as usize)
                &&& builder@.levels == Seq::new(graph.nodes().len(), |i: int| ZERO_SCALE)
            },
    {
        let count = graph.node_count();
        let channels: usize = if count == 0 {
            0
        } else {
            graph.node_weight(0).values.len()
        };
        let mut parents: Vec<usize> = Vec::new();
        let mut levels: Vec<u64> = Vec::new();
        let mut n: usize = 0;
        while n < count
            invariant
                n <= count,
                graph.wf(),
                count == graph.nodes().len(),
                parents@ == Seq::new(n as nat, |i: int| i as usize),
                levels@ == Seq::new(n as nat, |i: int| ZERO_SCALE),
                forall|i: int|
                    0 <= i < n ==> {
                        &&& (#[trigger] graph.nodes()[i]).values@.len() == channels
                        &&& graph.nodes()[i].values_sq@.len() == channels
                    },
                count > 0 ==> channels == graph.nodes()[0].values@.len(),
            decreases count - n,
        {
            let node = graph.node_weight(n);
            if node.values.len() != channels || node.values_sq.len() != channels {
                proof {
                    assert forall|other: int| !#[trigger] uniform(graph.nodes(), other) by {
                        if other == channels {
                            assert(!(graph.nodes()[n as int].values@.len() == other
                                && graph.nodes()[n as int].values_sq@.len() == other));
                        } else {
                            assert(graph.nodes()[0].values@.len() != other);
                        }
                    }
                }
                return None;
            }
            parents.push(n);
            levels.push(ZERO_SCALE);
            proof {
                assert(parents@ =~= Seq::new((n + 1) as nat, |i: int| i as usize));
                assert(levels@ =~= Seq::new((n + 1) as nat, |i: int| ZERO_SCALE));
            }
            n = n + 1;
        }
        let ghost start = TreeView {
            nodes: graph.nodes(),
            ends: graph.ends(),
            edges: graph.edges(),
            parents: parents@,
            levels: levels@,
        };
        let builder = TreeBuilder {
            graph,
            queue: EdgeQueue::new(),
            parents,
            levels,
            leaves: count,
            channels,
            queued: 0,
            floor: ZERO_SCALE,
            trace: Ghost(first_trace(start)),
        };
        proof {
            assert(uniform(graph.nodes(), channels as int));
            assert(tree_wf(builder@, count as int, channels as int));
            lemma_grounded_first(builder@, count as int, channels as int);
        }
        Some(builder)
    }
}

impl TreeBuilder {
    /// Collects, for every node other than `a` and `b` that an edge in use
    /// joins to `a`, that edge. The groups come in the order in which the
    /// neighbours are met, with an index from each neighbour to the place
    /// of its group.
    fn gather_first(&self, a: usize, b: usize) -> (res: (Vec<Group>, HashMap<usize, usize>))
        requires
            self.shape(),
            a < self@.nodes.len(),
            b < self@.nodes.len(),
            a != b,
        ensures
            groups_ok(self@, a as nat, b as nat, res.0@, false),
            indexed(res.0@, res.1@),
            forall|j: int| 0 <= j < res.0@.len() ==> (#[trigger] res.0@[j]).second.is_none(),
            forall|n: nat|
                n != a && n != b && #[trigger] linked(self@, a as nat, n) ==> grouped(res.0@, n),
    {
        let around = self.graph.neighbors(a);
        let mut groups: Vec<Group> = Vec::new();
        let mut index: HashMap<usize, usize> = HashMap::new();
        let mut i: usize = 0;
        while i < around.len()
            invariant
                i <= around@.len(),
                self.shape(),
                a < self@.nodes.len(),
                b < self@.nodes.len(),
                a != b,
                forall|n: usize|
                    around@.contains(n) <==> adjacent(self.graph.ends(), a as nat, n as nat),
                groups_ok(self@, a as nat, b as nat, groups@, false),
                indexed(groups@, index@),
                forall|j: int| 0 <= j < groups@.len() ==> (#[trigger] groups@[j]).second.is_none(),
                forall|k: int|
                    0 <= k < i && around@[k] != b && linked(self@, a as nat, around@[k] as nat)
                        ==> grouped(groups@, #[trigger] around@[k] as nat),
            decreases around@.len() - i,
        {
            let n = around[i];
            assert(around@.contains(n));
            if n != b {
                match self.graph.find_edge(a, n) {
                    Some(f) => {
                        let edge = self.graph.edge_weight(f);
                        if edge.active {
                            proof {
                                assert(links(self@, f as int, a as nat, n as nat));
                                lemma_link_unique(self@, f as int, a as nat, n as nat);
                            }
                            match find_group(&groups, &index, n) {
                                Some(_) => {},
                                None => {
                                    let ghost before = groups@;
                                    add_group(
                                        &mut groups,
                                        &mut index,
                                        Group {
                                            neighbor: n,
                                            length: edge.length,
                                            first: Some(f),
                                            second: None,
                                        },
                                    );
                                    proof {
                                        assert forall|k: int|
                                            0 <= k < i && around@[k] != b && linked(
                                                self@,
                                                a as nat,
                                                around@[k] as nat,
                                            ) implies grouped(
                                            groups@,
                                            #[trigger] around@[k] as nat,
                                        ) by {
                                            let j = choose|j: int|
                                                0 <= j < before.len() && (
                                                #[trigger] before[j]).neighbor == around@[k];
                                            assert(groups@[j].neighbor == around@[k]);
                                        }
                                        assert(groups@[before.len() as int].neighbor == n);
                                        assert forall|p: int, q: int|
                                            0 <= p < groups@.len() && 0 <= q < groups@.len() && p
                                                != q implies (#[trigger] groups@[p]).neighbor != (
                                        #[trigger] groups@[q]).neighbor by {
                                            if p < before.len() {
                                                assert(groups@[p] == before[p]);
                                            }
                                            if q < before.len() {
                                                assert(groups@[q] == before[q]);
                                            }
                                        }
                                        assert forall|j: int|
                                            0 <= j < groups@.len() implies group_ok(
                                            self@,
                                            a as nat,
                                            b as nat,
                                            #[trigger] groups@[j],
                                            false,
                                        ) by {
                                            if j < before.len() {
                                                assert(groups@[j] == before[j]);
                                            }
                                        }
                                    }
                                },
                            }
                        } else {
                            proof {
                                // The only edge between `a` and `n` is out of use.
                                if linked(self@, a as nat, n as nat) {
                                    let g = choose|g: int| links(self@, g, a as nat, n as nat);
                                    assert(!joins(
                                        self@.ends[g],
                                        self@.ends[f as int].0,
                                        self@.ends[f as int].1,
                                    ) || g == f);
                                }
                            }
                        }
                    },
                    None => {},
                }
            }
            i = i + 1;
        }
        proof {
            assert forall|n: nat|
                n != a && n != b && #[trigger] linked(self@, a as nat, n) implies grouped(
                groups@,
                n,
            ) by {
                let f = choose|f: int| links(self@, f, a as nat, n);
                assert(joins(self@.ends[f], a as nat, n));
                assert(adjacent(self.graph.ends(), a as nat, n));
                assert(n < self@.nodes.len());
                assert(around@.contains(n as usize));
                let k = choose|k: int| 0 <= k < around@.len() && around@[k] == n as usize;
                assert(grouped(groups@, around@[k] as nat));
            }
        }
        (groups, index)
    }

    /// Collects, for every node other than `a` and `b` that an edge in use
    /// joins to `a` or to `b`, those edges and their summed length. Returns
    /// nothing if one of the sums does not fit the length of an edge.
    fn gather(&self, a: usize, b: usize) -> (res: Option<Vec<Group>>)
        requires
            self.shape(),
            a < self@.nodes.len(),
            b < self@.nodes.len(),
            a != b,
        ensures
            res.is_none() ==> exists|n: nat|
                n != a && n != b && #[trigger] link_length(self@, a as nat, n) + link_length(
                    self@,
                    b as nat,
                    n,
                ) > u32::MAX,
            res.is_some() ==> {
                &&& groups_ok(self@, a as nat, b as nat, res.unwrap()@, true)
                &&& all_grouped(self@, a as nat, b as nat, res.unwrap()@)
            },
    {
        let (mut groups, mut index) = self.gather_first(a, b);
        let around = self.graph.neighbors(b);
        let mut i: usize = 0;
        while i < around.len()
            invariant
                i <= around@.len(),
                self.shape(),
                a < self@.nodes.len(),
                b < self@.nodes.len(),
                a != b,
                forall|n: usize|
                    around@.contains(n) <==> adjacent(self.graph.ends(), b as nat, n as nat),
                groups_ok(self@, a as nat, b as nat, groups@, false),
                indexed(groups@, index@),
                forall|n: nat|
                    n != a && n != b && #[trigger] linked(self@, a as nat, n) ==> grouped(
                        groups@,
                        n,
                    ),
                forall|k: int|
                    0 <= k < i && around@[k] != a && linked(self@, b as nat, around@[k] as nat)
                        ==> exists|j: int|
                        0 <= j < groups@.len() && (#[trigger] groups@[j]).neighbor == (
                        #[trigger] around@[k]) && groups@[j].second.is_some(),
            decreases around@.len() - i,
        {
            let n = around[i];
            assert(around@.contains(n));
            let ghost before = groups@;
            if n != a {
                match self.graph.find_edge(b, n) {
                    Some(f) => {
                        let edge = self.graph.edge_weight(f);
                        if edge.active {
                            proof {
                                assert(links(self@, f as int, b as nat, n as nat));
                                lemma_link_unique(self@, f as int, b as nat, n as nat);
                            }
                            match find_group(&groups, &index, n) {
                                Some(j) => {
                                    if groups[j].second.is_none() {
                                        let first = groups[j].first;
                                        assert(group_ok(self@, a as nat, b as nat, before[j as int], false));
                                        proof {
                                            lemma_link_unique(
                                                self@,
                                                first.unwrap() as int,
                                                a as nat,
                                                n as nat,
                                            );
                                        }
                                        match groups[j].length.checked_add(edge.length) {
                                            Some(sum) => {
                                                replace_group(
                                                    &mut groups,
                                                    &index,
                                                    j,
                                                    Group {
                                                        neighbor: n,
                                                        length: sum,
                                                        first,
                                                        second: Some(f),
                                                    },
                                                );
                                            },
                                            None => {
                                                assert(link_length(self@, a as nat, n as nat)
                                                    + link_length(self@, b as nat, n as nat)
                                                    > u32::MAX);
                                                return None;
                                            },
                                        }
                                    }
                                },
                                None => {
                                    add_group(
                                        &mut groups,
                                        &mut index,
                                        Group {
                                            neighbor: n,
                                            length: edge.length,
                                            first: None,
                                            second: Some(f),
                                        },
                                    );
                                },
                            }
                        } else {
                            proof {
                                if linked(self@, b as nat, n as nat) {
                                    let g = choose|g: int| links(self@, g, b as nat, n as nat);
                                    assert(!joins(
                                        self@.ends[g],
                                        self@.ends[f as int].0,
                                        self@.ends[f as int].1,
                                    ) || g == f);
                                }
                            }
                        }
                    },
                    None => {},
                }
            }
            proof {
                // Every group keeps its neighbour, and loses no edge.
                assert(groups@.len() >= before.len());
                assert forall|j: int| 0 <= j < before.len() implies (#[trigger] groups@[j]).neighbor
                    == before[j].neighbor && (before[j].second.is_some()
                    ==> groups@[j].second.is_some()) by {}
                assert forall|p: int, q: int|
                    0 <= p < groups@.len() && 0 <= q < groups@.len() && p != q implies (
                #[trigger] groups@[p]).neighbor != (#[trigger] groups@[q]).neighbor by {
                    if p < before.len() && q < before.len() {
                        assert(before[p].neighbor != before[q].neighbor);
                    } else if p < before.len() {
                        assert(groups@[p].neighbor == before[p].neighbor);
                        assert(!grouped(before, n as nat));
                    } else if q < before.len() {
                        assert(groups@[q].neighbor == before[q].neighbor);
                        assert(!grouped(before, n as nat));
                    }
                }
                assert forall|j: int| 0 <= j < groups@.len() implies group_ok(
                    self@,
                    a as nat,
                    b as nat,
                    #[trigger] groups@[j],
                    false,
                ) by {
                    if j < before.len() {
                        assert(group_ok(self@, a as nat, b as nat, before[j], false));
                    } else {
                        if linked(self@, a as nat, n as nat) {
                            assert(grouped(before, n as nat));
                        }
                    }
                }
                assert forall|m: nat|
                    m != a && m != b && #[trigger] linked(self@, a as nat, m) implies grouped(
                    groups@,
                    m,
                ) by {
                    let j = choose|j: int| 0 <= j < before.len() && (#[trigger] before[j]).neighbor == m;
                    assert(groups@[j].neighbor == m);
                }
                assert forall|k: int|
                    0 <= k < i + 1 && around@[k] != a && linked(
                        self@,
                        b as nat,
                        around@[k] as nat,
                    ) implies exists|j: int|
                    0 <= j < groups@.len() && (#[trigger] groups@[j]).neighbor == (
                    #[trigger] around@[k]) && groups@[j].second.is_some() by {
                    if k < i {
                        let j = choose|j: int|
                            0 <= j < before.len() && (#[trigger] before[j]).neighbor == around@[k]
                                && before[j].second.is_some();
                        assert(groups@[j].neighbor == around@[k] && groups@[j].second.is_some());
                    } else {
                        // The edge between `b` and `n` is in use; its group
                        // now knows it.
                        let f = choose|f: int| links(self@, f, b as nat, n as nat);
                        if grouped(before, n as nat) {
                            let j = choose|j: int|
                                0 <= j < before.len() && (#[trigger] before[j]).neighbor == n;
                            assert(groups@[j].neighbor == n && groups@[j].second.is_some());
                        } else {
                            let j = before.len() as int;
                            assert(groups@[j].neighbor == n && groups@[j].second.is_some());
                        }
                    }
                }
            }
            i = i + 1;
        }
        proof {
            assert forall|j: int| 0 <= j < groups@.len() implies group_ok(
                self@,
                a as nat,
                b as nat,
                #[trigger] groups@[j],
                true,
            ) by {
                let group = groups@[j];
                let n = group.neighbor as nat;
                assert(group_ok(self@, a as nat, b as nat, group, false));
                if group.second.is_none() && linked(self@, b as nat, n) {
                    let f = choose|f: int| links(self@, f, b as nat, n);
                    assert(joins(self@.ends[f], b as nat, n));
                    assert(adjacent(self.graph.ends(), b as nat, n));
                    assert(around@.contains(n as usize));
                    let k = choose|k: int| 0 <= k < around@.len() && around@[k] == n as usize;
                    let q = choose|q: int|
                        0 <= q < groups@.len() && (#[trigger] groups@[q]).neighbor == (
                        #[trigger] around@[k]) && groups@[q].second.is_some();
                    assert(q == j);
                }
            }
            assert forall|n: nat|
                n != a && n != b && #[trigger] nearby(self@, a as nat, b as nat, n) implies grouped(
                groups@,
                n,
            ) by {
                if !linked(self@, a as nat, n) {
                    let f = choose|f: int| links(self@, f, b as nat, n);
                    assert(joins(self@.ends[f], b as nat, n));
                    assert(adjacent(self.graph.ends(), b as nat, n));
                    assert(n < self@.nodes.len());
                    assert(around@.contains(n as usize));
                    let k = choose|k: int| 0 <= k < around@.len() && around@[k] == n as usize;
                    let q = choose|q: int|
                        0 <= q < groups@.len() && (#[trigger] groups@[q]).neighbor == (
                        #[trigger] around@[k]) && groups@[q].second.is_some();
                    assert(groups@[q].neighbor == n);
                }
            }
            assert(groups_ok(self@, a as nat, b as nat, groups@, true));
            assert(all_grouped(self@, a as nat, b as nat, groups@));
        }
        Some(groups)
    }

    /// Gives the edges that await a scale their scales, in order, and
    /// queues those that are in use.
    fn assign(&mut self, weights: &Vec<u64>)
        requires
            old(self).wf(),
            weights@.len() == old(self)@.edges.len() - old(self).queued(),
        ensures
            final(self).wf(),
            final(self)@ == scaled(old(self)@, old(self).queued() as int, weights@),
            final(self).queued() == final(self)@.edges.len(),
            final(self).leaves() == old(self).leaves(),
            final(self).channels() == old(self).channels(),
            final(self).floor() == old(self).floor(),
            final(self).trace == old(self).trace,
            old(self).ordered() && (forall|j: int|
                0 <= j < weights@.len() ==> old(self).floor() <= #[trigger] weights@[j])
                ==> final(self).ordered(),
            old(self).grounded() ==> final(self).grounded(),
    {
        let start = self.queued;
        let total = weights.len();
        let ghost recent = old(self).ordered() && (forall|j: int|
            0 <= j < weights@.len() ==> old(self).floor() <= #[trigger] weights@[j]);
        let mut j: usize = 0;
        while j < total
            invariant
                j <= total,
                total == weights@.len(),
                start + total == old(self)@.edges.len(),
                start == old(self).queued,
                self.wf(),
                self.queued == start + j,
                self.leaves == old(self).leaves,
                self.channels == old(self).channels,
                self.floor == old(self).floor,
                self.trace == old(self).trace,
                self.parents == old(self).parents,
                self.levels == old(self).levels,
                self.graph.nodes() == old(self).graph.nodes(),
                self.graph.ends() == old(self).graph.ends(),
                self.graph.edges().len() == old(self).graph.edges().len(),
                forall|f: int|
                    0 <= f < self.graph.edges().len() ==> #[trigger] self.graph.edges()[f] == if start
                        <= f < start + j {
                        SuperpixelEdge { weight: weights@[f - start], ..old(self).graph.edges()[f] }
                    } else {
                        old(self).graph.edges()[f]
                    },
                recent ==> (forall|k: int| 0 <= k < weights@.len() ==> self.floor <= #[trigger] weights@[k]),
                recent ==> self.ordered(),
            decreases total - j,
        {
            let e: usize = start + j;
            let edge = *self.graph.edge_weight(e);
            let weight = weights[j];
            let ghost before = *self;
            self.graph.set_edge(
                e,
                SuperpixelEdge { weight, length: edge.length, active: edge.active },
            );
            if edge.active {
                self.queue.push(QueueEntry { weight, edge: e });
            }
            self.queued = e + 1;
            proof {
                assert forall|g: int|
                    0 <= g < self@.edges.len() && (#[trigger] self@.edges[g]).active implies {
                    &&& self@.parents[self@.ends[g].0 as int] == self@.ends[g].0
                    &&& self@.parents[self@.ends[g].1 as int] == self@.ends[g].1
                } by {
                    assert(before@.edges[g].active);
                }
                assert(self.queue_covers(-1)) by {
                    assert forall|entry: QueueEntry| #[trigger]
                        self.queue@.contains(entry) implies {
                        &&& entry.edge < self.queued
                        &&& self.graph.edges()[entry.edge as int].active ==> entry.weight
                            == self.graph.edges()[entry.edge as int].weight
                    } by {
                        if before.queue@.contains(entry) {
                            assert(entry.edge < before.queued);
                        }
                    }
                    assert forall|g: int|
                        0 <= g < self.queued && g != -1 && (
                        #[trigger] self.graph.edges()[g]).active implies self.queue@.contains(
                        QueueEntry { weight: self.graph.edges()[g].weight, edge: g as usize },
                    ) by {
                        if g < before.queued {
                            assert(before.graph.edges()[g].active);
                        }
                    }
                }
                if recent {
                    assert(self.floor <= weights@[j as int]);
                }
            }
            j = j + 1;
        }
        proof {
            assert(self@.edges =~= scaled(old(self)@, old(self).queued() as int, weights@).edges);
            if old(self).grounded() {
                lemma_grounded_scaled(
                    old(self)@,
                    old(self).queued() as int,
                    weights@,
                    self.leaves as int,
                    self.trace@,
                );
            }
        }
    }

    /// Takes entries off the queue until one names an edge in use, and
    /// returns it; or nothing when the queue runs empty, which is when no
    /// edge is in use.
    fn pop_active(&mut self) -> (res: Option<QueueEntry>)
        requires
            old(self).wf(),
            old(self).queued() == old(self)@.edges.len(),
        ensures
            final(self)@ == old(self)@,
            final(self).shape(),
            final(self).graph() == old(self).graph(),
            final(self).queued() == old(self).queued(),
            final(self).leaves() == old(self).leaves(),
            final(self).channels() == old(self).channels(),
            final(self).floor() == old(self).floor(),
            final(self).trace == old(self).trace,
            res.is_none() ==> final(self).wf() && forall|e: int|
                0 <= e < final(self)@.edges.len() ==> !(#[trigger] final(self)@.edges[e]).active,
            res.is_some() ==> {
                &&& cheapest(final(self)@, res.unwrap().edge as int)
                &&& res.unwrap().weight == final(self)@.edges[res.unwrap().edge as int].weight
                &&& final(self).queue_covers(res.unwrap().edge as int)
            },
            old(self).ordered() ==> final(self).ordered(),
            old(self).ordered() && res.is_some() ==> final(self).above(res.unwrap().weight),
    {
        loop
            invariant
                self.wf(),
                self@ == old(self)@,
                self.graph == old(self).graph,
                self.queued == old(self).queued,
                self.queued == self@.edges.len(),
                self.leaves == old(self).leaves,
                self.channels == old(self).channels,
                self.floor == old(self).floor,
                self.trace == old(self).trace,
                old(self).ordered() ==> self.ordered(),
            decreases self.queue@.len(),
        {
            let ghost before = *self;
            match self.queue.pop() {
                None => {
                    return None;
                },
                Some(entry) => {
                    if self.graph.edge_weight(entry.edge).active {
                        proof {
                            assert forall|f: int|
                                0 <= f < self@.edges.len() && (
                                #[trigger] self@.edges[f]).active implies entry.weight
                                <= self@.edges[f].weight by {
                                assert(before.queue@.contains(
                                    QueueEntry { weight: self@.edges[f].weight, edge: f as usize },
                                ));
                            }
                            assert forall|g: int|
                                0 <= g < self.queued && g != entry.edge && (
                                #[trigger] self.graph.edges()[g]).active implies self.queue@.contains(
                                QueueEntry { weight: self.graph.edges()[g].weight, edge: g as usize },
                            ) by {
                                assert(before.queue@.contains(
                                    QueueEntry {
                                        weight: self.graph.edges()[g].weight,
                                        edge: g as usize,
                                    },
                                ));
                            }
                        }
                        return Some(entry);
                    }
                    proof {
                        assert forall|g: int|
                            0 <= g < self.queued && g != -1 && (
                            #[trigger] self.graph.edges()[g]).active implies self.queue@.contains(
                            QueueEntry { weight: self.graph.edges()[g].weight, edge: g as usize },
                        ) by {
                            assert(before.queue@.contains(
                                QueueEntry { weight: self.graph.edges()[g].weight, edge: g as usize },
                            ));
                        }
                    }
                },
            }
        }
    }

    /// No queued entry is lighter than `weight`, and the last merge was not
    /// above it.
    pub closed spec fn above(&self, weight: u64) -> bool {
        &&& self.floor <= weight
        &&& forall|entry: QueueEntry| #[trigger]
            self.queue@.contains(entry) ==> weight <= entry.weight
    }

    /// Takes edge `e` and the edges that the groups hold out of use.
    fn retire(&mut self, e: usize, groups: &Vec<Group>)
        requires
            old(self).graph.wf(),
            e < old(self).graph.edges().len(),
            forall|f: int| #[trigger] named(groups@, f) ==> 0 <= f < old(self).graph.edges().len(),
        ensures
            final(self).graph.wf(),
            final(self).graph.nodes() == old(self).graph.nodes(),
            final(self).graph.ends() == old(self).graph.ends(),
            final(self).graph.edges().len() == old(self).graph.edges().len(),
            forall|f: int|
                0 <= f < old(self).graph.edges().len() ==> #[trigger] final(self).graph.edges()[f]
                    == if f == e || named(groups@, f) {
                    retired(old(self).graph.edges()[f])
                } else {
                    old(self).graph.edges()[f]
                },
            final(self).queue == old(self).queue,
            final(self).parents == old(self).parents,
            final(self).levels == old(self).levels,
            final(self).leaves == old(self).leaves,
            final(self).channels == old(self).channels,
            final(self).queued == old(self).queued,
            final(self).floor == old(self).floor,
            final(self).trace == old(self).trace,
    {
        let fused_edge = *self.graph.edge_weight(e);
        self.graph.set_edge(
            e,
            SuperpixelEdge { weight: fused_edge.weight, length: fused_edge.length, active: false },
        );
        let mut j: usize = 0;
        while j < groups.len()
            invariant
                j <= groups@.len(),
                e < old(self).graph.edges().len(),
                forall|f: int|
                    #[trigger] named(groups@, f) ==> 0 <= f < old(self).graph.edges().len(),
                self.graph.wf(),
                self.graph.nodes() == old(self).graph.nodes(),
                self.graph.ends() == old(self).graph.ends(),
                self.graph.edges().len() == old(self).graph.edges().len(),
                forall|f: int|
                    0 <= f < old(self).graph.edges().len() ==> #[trigger] self.graph.edges()[f]
                        == if f == e || named(groups@.take(j as int), f) {
                        retired(old(self).graph.edges()[f])
                    } else {
                        old(self).graph.edges()[f]
                    },
                self.queue == old(self).queue,
                self.parents == old(self).parents,
                self.levels == old(self).levels,
                self.leaves == old(self).leaves,
                self.channels == old(self).channels,
                self.queued == old(self).queued,
                self.floor == old(self).floor,
                self.trace == old(self).trace,
            decreases groups@.len() - j,
        {
            let ghost before = self.graph.edges();
            let ghost done = groups@.take(j as int);
            let ghost next = groups@.take(j as int + 1);
            proof {
                assert(next[j as int] == groups@[j as int]);
                assert forall|i: int| 0 <= i < j implies next[i] == done[i] by {}
            }
            match groups[j].first {
                Some(f) => {
                    assert(named(groups@, f as int));
                    let edge = *self.graph.edge_weight(f);
                    self.graph.set_edge(
                        f,
                        SuperpixelEdge { weight: edge.weight, length: edge.length, active: false },
                    );
                },
                None => {},
            }
            match groups[j].second {
                Some(f) => {
                    assert(named(groups@, f as int));
                    let edge = *self.graph.edge_weight(f);
                    self.graph.set_edge(
                        f,
                        SuperpixelEdge { weight: edge.weight, length: edge.length, active: false },
                    );
                },
                None => {},
            }
            proof {
                assert forall|f: int|
                    0 <= f < old(self).graph.edges().len() implies #[trigger] self.graph.edges()[f]
                    == if f == e || named(next, f) {
                    retired(old(self).graph.edges()[f])
                } else {
                    old(self).graph.edges()[f]
                } by {
                    let here = holds(groups@[j as int], f);
                    if named(done, f) {
                        let i = choose|i: int| 0 <= i < done.len() && holds(#[trigger] done[i], f);
                        assert(next[i] == done[i]);
                        assert(named(next, f));
                    }
                    if here {
                        assert(named(next, f));
                    }
                    if named(next, f) && !here {
                        let i = choose|i: int| 0 <= i < next.len() && holds(#[trigger] next[i], f);
                        assert(i < j);
                        assert(done[i] == next[i]);
                        assert(named(done, f));
                    }
                    assert(before[f] == if f == e || named(done, f) {
                        retired(old(self).graph.edges()[f])
                    } else {
                        old(self).graph.edges()[f]
                    });
                }
            }
            j = j + 1;
        }
        proof {
            assert(groups@.take(groups@.len() as int) =~= groups@);
        }
    }

    /// Makes one edge in use from node `m` to the neighbour of each group,
    /// with the group's length and the scale zero.
    fn connect(&mut self, m: usize, groups: &Vec<Group>)
        requires
            old(self).graph.wf(),
            m < old(self).graph.nodes().len(),
            forall|f: int|
                0 <= f < old(self).graph.ends().len() ==> !touches(
                    #[trigger] old(self).graph.ends()[f],
                    m as nat,
                ),
            forall|j: int| 0 <= j < groups@.len() ==> (#[trigger] groups@[j]).neighbor < m,
            forall|i: int, j: int|
                0 <= i < groups@.len() && 0 <= j < groups@.len() && i != j ==> (
                #[trigger] groups@[i]).neighbor != (#[trigger] groups@[j]).neighbor,
            old(self).graph.edges().len() + groups@.len() < u32::MAX,
        ensures
            final(self).graph.wf(),
            final(self).graph.nodes() == old(self).graph.nodes(),
            final(self).graph.ends() == old(self).graph.ends() + Seq::new(
                groups@.len(),
                |j: int| (m as nat, groups@[j].neighbor as nat),
            ),
            final(self).graph.edges() == old(self).graph.edges() + Seq::new(
                groups@.len(),
                |j: int|
                    SuperpixelEdge { weight: ZERO_SCALE, length: groups@[j].length, active: true },
            ),
            final(self).queue == old(self).queue,
            final(self).parents == old(self).parents,
            final(self).levels == old(self).levels,
            final(self).leaves == old(self).leaves,
            final(self).channels == old(self).channels,
            final(self).queued == old(self).queued,
            final(self).floor == old(self).floor,
            final(self).trace == old(self).trace,
    {
        let mut j: usize = 0;
        while j < groups.len()
            invariant
                j <= groups@.len(),
                m < old(self).graph.nodes().len(),
                forall|f: int|
                    0 <= f < old(self).graph.ends().len() ==> !touches(
                        #[trigger] old(self).graph.ends()[f],
                        m as nat,
                    ),
                forall|i: int| 0 <= i < groups@.len() ==> (#[trigger] groups@[i]).neighbor < m,
                forall|i: int, k: int|
                    0 <= i < groups@.len() && 0 <= k < groups@.len() && i != k ==> (
                    #[trigger] groups@[i]).neighbor != (#[trigger] groups@[k]).neighbor,
                old(self).graph.edges().len() + groups@.len() < u32::MAX,
                self.graph.wf(),
                self.graph.nodes() == old(self).graph.nodes(),
                self.graph.ends() == old(self).graph.ends() + Seq::new(
                    j as nat,
                    |i: int| (m as nat, groups@[i].neighbor as nat),
                ),
                self.graph.edges() == old(self).graph.edges() + Seq::new(
                    j as nat,
                    |i: int|
                        SuperpixelEdge {
                            weight: ZERO_SCALE,
                            length: groups@[i].length,
                            active: true,
                        },
                ),
                self.queue == old(self).queue,
                self.parents == old(self).parents,
                self.levels == old(self).levels,
                self.leaves == old(self).leaves,
                self.channels == old(self).channels,
                self.queued == old(self).queued,
                self.floor == old(self).floor,
                self.trace == old(self).trace,
            decreases groups@.len() - j,
        {
            let n = groups[j].neighbor;
            let length = groups[j].length;
            let ghost ends = self.graph.ends();
            let ghost edges = self.graph.edges();
            proof {
                assert forall|f: int| 0 <= f < ends.len() implies !joins(
                    #[trigger] ends[f],
                    m as nat,
                    n as nat,
                ) by {
                    if f < old(self).graph.ends().len() {
                        assert(ends[f] == old(self).graph.ends()[f]);
                        assert(!touches(old(self).graph.ends()[f], m as nat));
                    } else {
                        let i = f - old(self).graph.ends().len();
                        assert(ends[f] == (m as nat, groups@[i].neighbor as nat));
                        assert(groups@[i].neighbor != groups@[j as int].neighbor);
                    }
                }
                assert(old(self).graph.ends().len() == old(self).graph.edges().len());
            }
            self.graph.add_edge(m, n, SuperpixelEdge::new(ZERO_SCALE, length));
            proof {
                assert(self.graph.ends() =~= old(self).graph.ends() + Seq::new(
                    (j + 1) as nat,
                    |i: int| (m as nat, groups@[i].neighbor as nat),
                ));
                assert(self.graph.edges() =~= old(self).graph.edges() + Seq::new(
                    (j + 1) as nat,
                    |i: int|
                        SuperpixelEdge {
                            weight: ZERO_SCALE,
                            length: groups@[i].length,
                            active: true,
                        },
                ));
            }
            j = j + 1;
        }
    }

    /// Merges the two end nodes of the edge of `entry`, which has been
    /// taken off the queue: retires the edges at both, appends the merged
    /// node, and joins it to the neighbours by new edges.
    fn apply(
        &mut self,
        entry: QueueEntry,
        a: usize,
        b: usize,
        node: SuperpixelNode,
        groups: &Vec<Group>,
    ) -> (fusion: Fusion)
        requires
            old(self).shape(),
            old(self).queue_covers(entry.edge as int),
            old(self).queued() == old(self)@.edges.len(),
            entry.edge < old(self)@.edges.len(),
            old(self)@.ends[entry.edge as int] == (a as nat, b as nat),
            old(self)@.edges[entry.edge as int].active,
            entry.weight == old(self)@.edges[entry.edge as int].weight,
            merged(
                old(self)@.nodes[a as int],
                old(self)@.nodes[b as int],
                old(self)@.edges[entry.edge as int].length as int,
                node,
            ),
            groups_ok(old(self)@, a as nat, b as nat, groups@, true),
            all_grouped(old(self)@, a as nat, b as nat, groups@),
            old(self)@.nodes.len() + 1 < u32::MAX,
            old(self)@.edges.len() + old(self)@.nodes.len() < u32::MAX,
        ensures
            final(self).wf(),
            fusion.edge == entry.edge,
            fused(old(self)@, final(self)@, fusion),
            final(self).queued() == old(self)@.edges.len(),
            final(self).leaves() == old(self).leaves(),
            final(self).channels() == old(self).channels(),
            final(self).floor() == entry.weight,
            final(self).origin() == old(self).origin(),
            final(self).origin_in_use() == old(self).origin_in_use(),
            old(self).ordered() && old(self).above(entry.weight) ==> final(self).ordered(),
            old(self).grounded() ==> final(self).grounded(),
    {
        let e = entry.edge;
        let ghost before = self@;
        let ghost start = *self;
        proof {
            lemma_named(before, e as int, a as nat, b as nat, groups@);
            lemma_group_count(before, a as nat, b as nat, groups@);
            lemma_lengths_fit(before, a as nat, b as nat, groups@);
        }
        let first_new_edge = self.graph.edge_count();
        self.retire(e, groups);
        let ghost cut = self.graph.edges();
        let m = self.graph.add_node(node);
        self.parents.push(m);
        self.levels.push(entry.weight);
        self.parents[a] = m;
        self.parents[b] = m;
        proof {
            assert forall|j: int| 0 <= j < groups@.len() implies (#[trigger] groups@[j]).neighbor
                < m by {
                assert(group_ok(before, a as nat, b as nat, groups@[j], true));
            }
        }
        self.connect(m, groups);
        self.queued = first_new_edge;
        self.floor = entry.weight;
        let fusion = Fusion {
            edge: e,
            source: a,
            target: b,
            node: m,
            level: entry.weight,
            first_new_edge,
        };
        self.trace = Ghost(next_trace(before, self@, fusion, start.trace@));
        proof {
            let after = self@;
            let old_edges = before.edges.len() as int;
            assert(after.nodes.take(m as int) =~= before.nodes);
            assert(after.nodes[m as int] == node);
            assert(after.parents =~= before.parents.update(a as int, m).update(b as int, m).push(
                m,
            ));
            assert(after.levels =~= before.levels.push(entry.weight));
            assert forall|g: int| 0 <= g < old_edges implies {
                &&& #[trigger] after.ends[g] == before.ends[g]
                &&& after.edges[g] == if g == e || (before.edges[g].active && (touches(
                    before.ends[g],
                    a as nat,
                ) || touches(before.ends[g], b as nat))) {
                    retired(before.edges[g])
                } else {
                    before.edges[g]
                }
            } by {
                assert(after.edges[g] == cut[g]);
                if g != e {
                    assert(named(groups@, g) <==> (before.edges[g].active && (touches(
                        before.ends[g],
                        a as nat,
                    ) || touches(before.ends[g], b as nat))));
                }
            }
            assert forall|g: int| old_edges <= g < after.edges.len() implies {
                let n = (#[trigger] after.ends[g]).1;
                &&& after.ends[g].0 == m
                &&& n != a
                &&& n != b
                &&& n < m
                &&& nearby(before, a as nat, b as nat, n)
                &&& after.edges[g] == SuperpixelEdge {
                    weight: ZERO_SCALE,
                    length: (link_length(before, a as nat, n) + link_length(before, b as nat, n)) as u32,
                    active: true,
                }
                &&& link_length(before, a as nat, n) + link_length(before, b as nat, n) <= u32::MAX
            } by {
                let j = g - old_edges;
                assert(group_ok(before, a as nat, b as nat, groups@[j], true));
                assert(after.ends[g] == (m as nat, groups@[j].neighbor as nat));
                assert(after.edges[g] == SuperpixelEdge {
                    weight: ZERO_SCALE,
                    length: groups@[j].length,
                    active: true,
                });
            }
            assert forall|n: nat|
                n != a && n != b && #[trigger] nearby(
                    before,
                    a as nat,
                    b as nat,
                    n,
                ) implies exists|g: int|
                old_edges <= g < after.edges.len() && (#[trigger] after.ends[g]).1 == n by {
                let j = choose|j: int| 0 <= j < groups@.len() && (#[trigger] groups@[j]).neighbor == n;
                assert(after.ends[old_edges + j].1 == n);
            }
            assert(fused(before, after, fusion));
            // Every edge in use joins two roots.
            assert forall|g: int|
                0 <= g < after.edges.len() && (#[trigger] after.edges[g]).active implies {
                &&& after.parents[after.ends[g].0 as int] == after.ends[g].0
                &&& after.parents[after.ends[g].1 as int] == after.ends[g].1
            } by {
                if g < old_edges {
                    assert(after.ends[g] == before.ends[g]);
                    assert(before.edges[g].active);
                    assert(!touches(before.ends[g], a as nat));
                    assert(!touches(before.ends[g], b as nat));
                } else {
                    let n = after.ends[g].1;
                    assert(nearby(before, a as nat, b as nat, n));
                    let x = if linked(before, a as nat, n) {
                        a as nat
                    } else {
                        b as nat
                    };
                    let f = choose|f: int| links(before, f, x, n);
                    assert(before.edges[f].active);
                    assert(before.parents[n as int] == n);
                }
            }
            assert(uniform(after.nodes, self.channels as int)) by {
                assert forall|n: int| 0 <= n < after.nodes.len() implies {
                    &&& (#[trigger] after.nodes[n]).values@.len() == self.channels
                    &&& after.nodes[n].values_sq@.len() == self.channels
                } by {
                    if n < m {
                        assert(after.nodes[n] == before.nodes[n]);
                    }
                }
            }
            assert(tree_wf(after, self.leaves as int, self.channels as int));
            assert(self.queue_covers(-1)) by {
                assert forall|other: QueueEntry| #[trigger]
                    self.queue@.contains(other) implies {
                    &&& other.edge < self.queued
                    &&& self.graph.edges()[other.edge as int].active ==> other.weight
                        == self.graph.edges()[other.edge as int].weight
                } by {
                    assert(start.queue@.contains(other));
                    assert(after.ends[other.edge as int] == before.ends[other.edge as int]);
                }
                assert forall|g: int|
                    0 <= g < self.queued && g != -1 && (
                    #[trigger] self.graph.edges()[g]).active implies self.queue@.contains(
                    QueueEntry { weight: self.graph.edges()[g].weight, edge: g as usize },
                ) by {
                    assert(after.ends[g] == before.ends[g]);
                    assert(start.graph.edges()[g].active);
                }
            }
            if start.ordered() && start.above(entry.weight) {
                assert(self.ordered());
            }
            if start.grounded() {
                lemma_grounded_step(
                    before,
                    after,
                    fusion,
                    self.leaves as int,
                    self.channels as int,
                    start.trace@,
                );
            }
        }
        fusion
    }

    /// The number of edges that await a scale: all edges of a fresh
    /// builder, and after a merge the edges made for the merged node.
    pub fn awaiting(&self) -> (res: usize)
        requires
            self.wf(),
        ensures
            res == self@.edges.len() - self.queued(),
    {
        self.graph.edge_count() - self.queued
    }

    /// The graph as it stands.
    pub fn graph_ref(&self) -> (res: &SuperpixelGraph)
        ensures
            *res == self.graph(),
    {
        &self.graph
    }

    /// Takes one step: gives the edges that await a scale the scales in
    /// `weights`, in the order of the edges, and then fuses an edge in use
    /// of least scale, if there is one and the merge fits.
    pub fn advance(&mut self, weights: &Vec<u64>) -> (step: Step)
        requires
            old(self).wf(),
            weights@.len() == old(self)@.edges.len() - old(self).queued(),
        ensures
            final(self).wf(),
            final(self).leaves() == old(self).leaves(),
            final(self).channels() == old(self).channels(),
            ({
                let mid = scaled(old(self)@, old(self).queued() as int, weights@);
                match step {
                    Step::Done => {
                        &&& final(self)@ == mid
                        &&& final(self).queued() == mid.edges.len()
                        &&& forall|e: int|
                            0 <= e < mid.edges.len() ==> !(#[trigger] mid.edges[e]).active
                    },
                    Step::OutOfRange => {
                        &&& final(self)@ == mid
                        &&& final(self).queued() == mid.edges.len()
                        &&& exists|e: int| #[trigger] cheapest(mid, e) && !fits(mid, e)
                    },
                    Step::Fused(fusion) => {
                        &&& cheapest(mid, fusion.edge as int)
                        &&& fits(mid, fusion.edge as int)
                        &&& fused(mid, final(self)@, fusion)
                        &&& final(self).queued() == mid.edges.len()
                        &&& final(self).floor() == fusion.level
                    },
                }
            }),
            !(step is Fused) ==> final(self).floor() == old(self).floor(),
            final(self).origin() == old(self).origin(),
            final(self).origin_in_use() == old(self).origin_in_use(),
            old(self).ordered() && (forall|j: int|
                0 <= j < weights@.len() ==> old(self).floor() <= #[trigger] weights@[j])
                ==> final(self).ordered(),
            old(self).grounded() ==> final(self).grounded(),
    {
        self.assign(weights);
        let ghost mid = self@;
        let ghost assigned = *self;
        match self.pop_active() {
            None => Step::Done,
            Some(entry) => {
                let e = entry.edge;
                let (a, b) = self.graph.edge_endpoints(e);
                let nodes = self.graph.node_count();
                let edges = self.graph.edge_count();
                let length = self.graph.edge_weight(e).length;
                let roomy = nodes as u64 + 1 < u32::MAX as u64 && edges as u64 + (nodes as u64)
                    < u32::MAX as u64;
                let node = if roomy {
                    merge_nodes(self.graph.node_weight(a), self.graph.node_weight(b), length)
                } else {
                    None
                };
                let groups = if node.is_some() {
                    self.gather_around(entry, a, b)
                } else {
                    None
                };
                match (node, groups) {
                    (Some(node), Some(groups)) => {
                        proof {
                            lemma_lengths_fit(mid, a as nat, b as nat, groups@);
                            assert(cheapest(mid, e as int));
                            assert(fits(mid, e as int));
                        }
                        let fusion = self.apply(entry, a, b, node, &groups);
                        Step::Fused(fusion)
                    },
                    _ => {
                        let ghost popped = *self;
                        self.queue.push(entry);
                        proof {
                            assert(!fits(mid, e as int));
                            assert(self.queue_covers(-1)) by {
                                assert forall|g: int|
                                    0 <= g < self.queued && g != -1 && (
                                    #[trigger] self.graph.edges()[g]).active implies self.queue@.contains(
                                    QueueEntry {
                                        weight: self.graph.edges()[g].weight,
                                        edge: g as usize,
                                    },
                                ) by {
                                    if g != e {
                                        assert(popped.queue@.contains(
                                            QueueEntry {
                                                weight: self.graph.edges()[g].weight,
                                                edge: g as usize,
                                            },
                                        ));
                                    }
                                }
                            }
                            if assigned.ordered() {
                                assert(popped.above(entry.weight));
                                assert(self.ordered());
                            }
                        }
                        Step::OutOfRange
                    },
                }
            },
        }
    }

    /// The groups around the two end nodes of the edge of `entry`, which
    /// has been taken off the queue.
    fn gather_around(&self, entry: QueueEntry, a: usize, b: usize) -> (res: Option<Vec<Group>>)
        requires
            self.shape(),
            self.queue_covers(entry.edge as int),
            a < self@.nodes.len(),
            b < self@.nodes.len(),
            a != b,
        ensures
            res.is_none() ==> exists|n: nat|
                n != a && n != b && #[trigger] link_length(self@, a as nat, n) + link_length(
                    self@,
                    b as nat,
                    n,
                ) > u32::MAX,
            res.is_some() ==> {
                &&& groups_ok(self@, a as nat, b as nat, res.unwrap()@, true)
                &&& all_grouped(self@, a as nat, b as nat, res.unwrap()@)
            },
    {
        self.gather(a, b)
    }

    /// Ends the building and hands out the tree as it stands.
    pub fn finish(self) -> (tree: PartitionTree)
        requires
            self.wf(),
        ensures
            tree.wf(),
            tree.parents@ == self@.parents,
            tree.levels@ == self@.levels,
    {
        PartitionTree { parents: self.parents, levels: self.levels }
    }
}

} // verus!
