//! The movie graph itself: petgraph's directed graph, node-labeled with
//! titles and edge-labeled with scores, seen through a small trusted
//! surface.
//!
//! The graph value is opaque; its contents are named by two spec functions,
//! `graph_nodes` (the node labels, in insertion order, so that a node's
//! position in this sequence is its identity) and `graph_edges` (the edges,
//! in insertion order, each an ordered (source, target) pair of node
//! positions plus the stored score). Every method the logic calls is
//! wrapped by a function whose contract speaks over those two names.

use vstd::prelude::*;

verus! {

#[verifier::external_type_specification]
#[verifier::external_body]
#[verifier::reject_recursive_types(N)]
#[verifier::reject_recursive_types(E)]
#[verifier::reject_recursive_types(Ty)]
#[verifier::reject_recursive_types(Ix)]
pub struct ExGraph<N, E, Ty, Ix>(petgraph::graph::Graph<N, E, Ty, Ix>);

#[verifier::external_type_specification]
#[verifier::external_body]
pub struct ExDirected(petgraph::Directed);

/// The graph the builder produces: directed, `String` node labels, `u32`
/// edge labels, `u32` node indices.
pub type MovieGraph = petgraph::graph::Graph<String, u32, petgraph::Directed, u32>;

/// The node labels of `g`, in insertion order. A node's position in this
/// sequence is its node index.
pub uninterp spec fn graph_nodes(g: MovieGraph) -> Seq<Seq<char>>;

/// The edges of `g`, in insertion order: (source position, target position,
/// score).
pub uninterp spec fn graph_edges(g: MovieGraph) -> Seq<(int, int, u32)>;

/// Whether the edge list `es` holds a directed edge from `a` to `b`.
pub open spec fn has_edge(es: Seq<(int, int, u32)>, a: int, b: int) -> bool {
    exists|i: int| 0 <= i < es.len() && (#[trigger] es[i]).0 == a && es[i].1 == b
}

/// The targets of the edges of `es` whose source is `a`, most recently
/// added first; the order in which petgraph's `neighbors` walks them.
pub open spec fn out_targets(es: Seq<(int, int, u32)>, a: int) -> Seq<int>
    decreases es.len(),
{
    if es.len() == 0 {
        Seq::<int>::empty()
    } else {
        let rest = out_targets(es.drop_last(), a);
        if es.last().0 == a {
            seq![es.last().1] + rest
        } else {
            rest
        }
    }
}

/// Relies on petgraph's `Graph::new`: an empty directed graph.
#[verifier::external_body]
pub(crate) fn graph_new() -> (g: MovieGraph)
    ensures
        graph_nodes(g) == Seq::<Seq<char>>::empty(),
        graph_edges(g) == Seq::<(int, int, u32)>::empty(),
{
    petgraph::graph::Graph::new()
}

/// Relies on petgraph's `Graph::node_count`: the number of nodes.
#[verifier::external_body]
pub(crate) fn graph_node_count(g: &MovieGraph) -> (r: usize)
    ensures
        r == graph_nodes(*g).len(),
{
    g.node_count()
}

/// Relies on petgraph's `Graph::add_node`: appends one node with the given
/// label and returns its index. It panics only when the `u32` index space
/// is full, which the precondition rules out.
#[verifier::external_body]
pub(crate) fn graph_add_node(g: &mut MovieGraph, title: String) -> (r: usize)
    requires
        graph_nodes(*old(g)).len() < 0xFFFF_FFFF,
    ensures
        graph_nodes(*final(g)) == graph_nodes(*old(g)).push(title@),
        graph_edges(*final(g)) == graph_edges(*old(g)),
        r == graph_nodes(*old(g)).len(),
{
    g.add_node(title).index()
}

/// Relies on petgraph's `Graph::contains_edge` on a directed graph: whether
/// an edge runs from `a` to `b`. It never panics; the bounds keep the `u32`
/// node indices exact.
#[verifier::external_body]
pub(crate) fn graph_contains_edge(g: &MovieGraph, a: usize, b: usize) -> (r: bool)
    requires
        a < graph_nodes(*g).len(),
        b < graph_nodes(*g).len(),
    ensures
        r == has_edge(graph_edges(*g), a as int, b as int),
{
    g.contains_edge(
        petgraph::graph::NodeIndex::new(a),
        petgraph::graph::NodeIndex::new(b),
    )
}

/// Relies on petgraph's `Graph::add_edge`: appends one directed edge from
/// `a` to `b` carrying `score`. It panics only on a missing endpoint or a
/// full `u32` index space, which the preconditions rule out.
#[verifier::external_body]
pub(crate) fn graph_add_edge(g: &mut MovieGraph, a: usize, b: usize, score: u32)
    requires
        a < graph_nodes(*old(g)).len(),
        b < graph_nodes(*old(g)).len(),
        graph_edges(*old(g)).len() < 0xFFFF_FFFF,
    ensures
        graph_nodes(*final(g)) == graph_nodes(*old(g)),
        graph_edges(*final(g)) == graph_edges(*old(g)).push((a as int, b as int, score)),
{
    g.add_edge(
        petgraph::graph::NodeIndex::new(a),
        petgraph::graph::NodeIndex::new(b),
        score,
    );
}

/// Relies on petgraph's `Graph::neighbors` on a directed graph: the targets
/// of the outgoing edges of `a`, most recently added edge first. Every
/// target an edge names is an existing node, so the results lie below the
/// node count.
#[verifier::external_body]
pub(crate) fn graph_neighbors(g: &MovieGraph, a: usize) -> (r: Vec<usize>)
    requires
        a < graph_nodes(*g).len(),
    ensures
        r@.len() == out_targets(graph_edges(*g), a as int).len(),
        forall|k: int| 0 <= k < r@.len() ==>
            ((#[trigger] r@[k]) as int) == out_targets(graph_edges(*g), a as int)[k],
        forall|k: int| 0 <= k < r@.len() ==> (#[trigger] r@[k] as int) < graph_nodes(*g).len(),
{
    g.neighbors(petgraph::graph::NodeIndex::new(a)).map(|x| x.index()).collect()
}

} // verus!
