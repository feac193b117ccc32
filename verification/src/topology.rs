use vstd::prelude::*;

verus! {

/// Makes `petgraph`'s `Graph` known to the verifier, as a type whose values
/// it cannot look into.
#[verifier::external_type_specification]
#[verifier::external_body]
#[verifier::reject_recursive_types(N)]
#[verifier::reject_recursive_types(E)]
#[verifier::reject_recursive_types(Ty)]
#[verifier::reject_recursive_types(Ix)]
pub struct ExGraph<N, E, Ty, Ix>(petgraph::graph::Graph<N, E, Ty, Ix>);

/// Makes `petgraph`'s marker `Undirected` known to the verifier.
#[verifier::external_type_specification]
#[verifier::external_body]
pub struct ExUndirected(petgraph::Undirected);

/// The number of nodes of a `petgraph` graph; its nodes are numbered from
/// zero in the order they were added.
pub uninterp spec fn topology_nodes(
    graph: petgraph::graph::Graph<(), (), petgraph::Undirected, u32>,
) -> nat;

/// The edges of a `petgraph` graph in the order they were added, each as the
/// pair of node numbers it was added with.
pub uninterp spec fn topology_edges(
    graph: petgraph::graph::Graph<(), (), petgraph::Undirected, u32>,
) -> Seq<(nat, nat)>;

/// Whether an edge with these end nodes joins `a` and `b`, in either
/// direction.
pub open spec fn joins(ends: (nat, nat), a: nat, b: nat) -> bool {
    (ends.0 == a && ends.1 == b) || (ends.0 == b && ends.1 == a)
}

/// Whether some edge of the sequence joins `a` and `b`.
pub open spec fn adjacent(edges: Seq<(nat, nat)>, a: nat, b: nat) -> bool {
    exists|e: int| 0 <= e < edges.len() && joins(#[trigger] edges[e], a, b)
}

/// Calls `Graph::new_undirected`, which makes a graph without nodes or
/// edges.
#[verifier::external_body]
pub(crate) fn topology_new() -> (graph: petgraph::graph::Graph<(), (), petgraph::Undirected, u32>)
    ensures
        topology_nodes(graph) == 0,
        topology_edges(graph) == Seq::<(nat, nat)>::empty(),
{
    petgraph::graph::Graph::new_undirected()
}

/// Calls `Graph::add_node`, which panics once the node count has reached
/// the largest 32-bit index and otherwise appends a node and returns its
/// number. The edges stay as they were.
#[verifier::external_body]
pub(crate) fn topology_add_node(
    graph: &mut petgraph::graph::Graph<(), (), petgraph::Undirected, u32>,
) -> (node: usize)
    requires
        topology_nodes(*old(graph)) < u32::MAX,
    ensures
        node == topology_nodes(*old(graph)),
        topology_nodes(*final(graph)) == topology_nodes(*old(graph)) + 1,
        topology_edges(*final(graph)) == topology_edges(*old(graph)),
{
    graph.add_node(()).index()
}

/// Calls `Graph::add_edge`, which panics when an end node does not exist
/// or once the edge count has reached the largest 32-bit index, and
/// otherwise appends an edge from `a` to `b` and returns its number. The
/// nodes and the earlier edges stay as they were.
#[verifier::external_body]
pub(crate) fn topology_add_edge(
    graph: &mut petgraph::graph::Graph<(), (), petgraph::Undirected, u32>,
    a: usize,
    b: usize,
) -> (edge: usize)
    requires
        a < topology_nodes(*old(graph)),
        b < topology_nodes(*old(graph)),
        topology_nodes(*old(graph)) <= u32::MAX,
        topology_edges(*old(graph)).len() < u32::MAX,
    ensures
        edge == topology_edges(*old(graph)).len(),
        topology_nodes(*final(graph)) == topology_nodes(*old(graph)),
        topology_edges(*final(graph)) == topology_edges(*old(graph)).push((a as nat, b as nat)),
{
    graph.add_edge(
        petgraph::graph::NodeIndex::new(a),
        petgraph::graph::NodeIndex::new(b),
        (),
    ).index()
}

/// Calls `Graph::edge_endpoints`, which returns the two end nodes the edge
/// was added with, or nothing when there is no edge of that number.
#[verifier::external_body]
pub(crate) fn topology_edge_endpoints(
    graph: &petgraph::graph::Graph<(), (), petgraph::Undirected, u32>,
    edge: usize,
) -> (ends: Option<(usize, usize)>)
    requires
        edge <= u32::MAX,
    ensures
        ends.is_some() <==> edge < topology_edges(*graph).len(),
        ends.is_some() ==> topology_edges(*graph)[edge as int] == (
            ends.unwrap().0 as nat,
            ends.unwrap().1 as nat,
        ),
{
    match graph.edge_endpoints(petgraph::graph::EdgeIndex::new(edge)) {
        Some((a, b)) => Some((a.index(), b.index())),
        None => None,
    }
}

/// Calls `Graph::find_edge`. On an undirected graph it walks the edges at
/// `a` and returns one that joins `a` and `b` in either direction, or
/// nothing when no edge joins them. Which of several such edges comes back
/// is left open here.
#[verifier::external_body]
pub(crate) fn topology_find_edge(
    graph: &petgraph::graph::Graph<(), (), petgraph::Undirected, u32>,
    a: usize,
    b: usize,
) -> (edge: Option<usize>)
    requires
        a <= u32::MAX,
        b <= u32::MAX,
    ensures
        edge.is_some() <==> adjacent(topology_edges(*graph), a as nat, b as nat),
        edge.is_some() ==> edge.unwrap() < topology_edges(*graph).len() && joins(
            topology_edges(*graph)[edge.unwrap() as int],
            a as nat,
            b as nat,
        ),
{
    match graph.find_edge(petgraph::graph::NodeIndex::new(a), petgraph::graph::NodeIndex::new(b)) {
        Some(e) => Some(e.index()),
        None => None,
    }
}

/// Calls `Graph::neighbors` and collects what it yields. On an undirected
/// graph it walks every edge at `a` and yields the node at its other end,
/// so a node is in the result exactly when some edge joins it to `a`. The
/// order, and how often a node occurs, are left open here.
#[verifier::external_body]
pub(crate) fn topology_neighbors(
    graph: &petgraph::graph::Graph<(), (), petgraph::Undirected, u32>,
    a: usize,
) -> (nodes: Vec<usize>)
    requires
        a <= u32::MAX,
    ensures
        forall|n: usize|
            nodes@.contains(n) <==> adjacent(topology_edges(*graph), a as nat, n as nat),
{
    graph.neighbors(petgraph::graph::NodeIndex::new(a)).map(|n| n.index()).collect()
}

} // verus!
