//! The road graph: an adjacency list keyed by source node, and what a walk
//! through it costs.

use vstd::prelude::*;
use std::collections::HashMap;
use crate::model::{Edge, Node};

verus! {

broadcast use vstd::std_specs::hash::group_hash_axioms;

/// The outgoing edges of `u`, in the order they were added; empty where `u`
/// has no adjacency entry.
pub open spec fn out_edges(adj: Map<i32, Seq<Edge>>, u: i32) -> Seq<Edge> {
    if adj.contains_key(u) {
        adj[u]
    } else {
        Seq::empty()
    }
}

/// The adjacency list `adj` after registering the node `id`: it gets an
/// empty entry unless it has one.
pub open spec fn with_node(adj: Map<i32, Seq<Edge>>, id: i32) -> Map<i32, Seq<Edge>> {
    if adj.contains_key(id) {
        adj
    } else {
        adj.insert(id, Seq::empty())
    }
}

/// The adjacency list `adj` after appending `e` to the outgoing edges of its
/// source.
pub open spec fn with_edge(adj: Map<i32, Seq<Edge>>, e: Edge) -> Map<i32, Seq<Edge>> {
    adj.insert(e.node_a_id, out_edges(adj, e.node_a_id).push(e))
}

/// Registering a node twice is registering it once, and registering a node
/// changes no node's outgoing edges.
pub proof fn lemma_with_node_idempotent(adj: Map<i32, Seq<Edge>>, id: i32)
    ensures
        with_node(with_node(adj, id), id) == with_node(adj, id),
        forall|u: i32| out_edges(with_node(adj, id), u) == out_edges(adj, u),
{
}

/// Appending an edge adds it to its source alone, behind the edges that are
/// there; the reverse direction gains nothing.
pub proof fn lemma_with_edge_directed(adj: Map<i32, Seq<Edge>>, e: Edge)
    ensures
        out_edges(with_edge(adj, e), e.node_a_id) == out_edges(adj, e.node_a_id).push(e),
        forall|u: i32| u != e.node_a_id ==> out_edges(with_edge(adj, e), u) == out_edges(adj, u),
        has_edge(with_edge(adj, e), e),
{
    let grown = out_edges(adj, e.node_a_id).push(e);
    assert(grown[grown.len() - 1] == e);
}

/// Every edge is filed under its own source node.
pub open spec fn sources_match(adj: Map<i32, Seq<Edge>>) -> bool {
    forall|u: i32, j: int|
        adj.contains_key(u) && 0 <= j < adj[u].len() ==> (#[trigger] adj[u][j]).node_a_id == u
}

/// No edge has a negative weight.
pub open spec fn weights_nonnegative(adj: Map<i32, Seq<Edge>>) -> bool {
    forall|u: i32, j: int|
        adj.contains_key(u) && 0 <= j < adj[u].len() ==> (#[trigger] adj[u][j]).weight >= 0
}

/// `e` is one of the graph's edges.
pub open spec fn has_edge(adj: Map<i32, Seq<Edge>>, e: Edge) -> bool {
    out_edges(adj, e.node_a_id).contains(e)
}

/// `p` is a chain of the graph's edges that leads from `s` to `t`. The empty
/// chain leads from a node to itself.
pub open spec fn is_walk(adj: Map<i32, Seq<Edge>>, p: Seq<Edge>, s: i32, t: i32) -> bool
    decreases p.len(),
{
    if p.len() == 0 {
        s == t
    } else {
        &&& has_edge(adj, p.last())
        &&& p.last().node_b_id == t
        &&& is_walk(adj, p.drop_last(), s, p.last().node_a_id)
    }
}

/// The sum of the weights along `p`.
pub open spec fn walk_cost(p: Seq<Edge>) -> int
    decreases p.len(),
{
    if p.len() == 0 {
        0
    } else {
        walk_cost(p.drop_last()) + p.last().weight
    }
}

/// Some walk from `s` to `t` costs exactly `c`.
pub open spec fn reachable_at(adj: Map<i32, Seq<Edge>>, s: i32, t: i32, c: int) -> bool {
    exists|p: Seq<Edge>| #[trigger] is_walk(adj, p, s, t) && walk_cost(p) == c
}

/// `c` is the cost of a cheapest walk from `s` to `t`.
pub open spec fn is_min_cost(adj: Map<i32, Seq<Edge>>, s: i32, t: i32, c: int) -> bool {
    &&& reachable_at(adj, s, t, c)
    &&& forall|p: Seq<Edge>| #[trigger] is_walk(adj, p, s, t) ==> c <= walk_cost(p)
}

/// The cheapest cost from `s` to `t` exists and is below `i32::MAX`.
pub open spec fn within_reach(adj: Map<i32, Seq<Edge>>, s: i32, t: i32) -> bool {
    exists|c: int| 0 <= c < i32::MAX && #[trigger] is_min_cost(adj, s, t, c)
}

/// The cheapest cost from `s` to each node within reach of it.
pub open spec fn min_costs(adj: Map<i32, Seq<Edge>>, s: i32) -> Map<i32, i32> {
    Map::new(
        |t: i32| within_reach(adj, s, t),
        |t: i32| (choose|c: int| 0 <= c < i32::MAX && #[trigger] is_min_cost(adj, s, t, c)) as i32,
    )
}

/// Two cheapest costs between the same nodes are one cost.
pub proof fn lemma_min_cost_unique(adj: Map<i32, Seq<Edge>>, s: i32, t: i32, c1: int, c2: int)
    requires
        is_min_cost(adj, s, t, c1),
        is_min_cost(adj, s, t, c2),
    ensures
        c1 == c2,
{
    let p1 = choose|p: Seq<Edge>| #[trigger] is_walk(adj, p, s, t) && walk_cost(p) == c1;
    let p2 = choose|p: Seq<Edge>| #[trigger] is_walk(adj, p, s, t) && walk_cost(p) == c2;
    assert(c1 <= walk_cost(p2));
    assert(c2 <= walk_cost(p1));
}

/// A walk from `s` to the source of an edge of the graph, followed by that
/// edge, is a walk to the edge's target.
pub proof fn lemma_walk_extend(adj: Map<i32, Seq<Edge>>, p: Seq<Edge>, s: i32, e: Edge)
    requires
        is_walk(adj, p, s, e.node_a_id),
        has_edge(adj, e),
    ensures
        is_walk(adj, p.push(e), s, e.node_b_id),
        walk_cost(p.push(e)) == walk_cost(p) + e.weight,
{
    let extended = p.push(e);
    assert(extended.drop_last() =~= p);
    assert(extended.last() == e);
}

/// A walk stays a walk when the graph gains an edge.
pub proof fn lemma_walk_survives(adj: Map<i32, Seq<Edge>>, e: Edge, p: Seq<Edge>, s: i32, t: i32)
    requires
        is_walk(adj, p, s, t),
    ensures
        is_walk(with_edge(adj, e), p, s, t),
    decreases p.len(),
{
    if p.len() > 0 {
        let x = p.last();
        lemma_walk_survives(adj, e, p.drop_last(), s, x.node_a_id);
        let j = choose|j: int|
            0 <= j < out_edges(adj, x.node_a_id).len() && out_edges(adj, x.node_a_id)[j] == x;
        assert(out_edges(with_edge(adj, e), x.node_a_id)[j] == x);
    }
}

/// From a walk through a graph that gained the self-loop `e`, the walk
/// without the uses of `e` that the graph did not have before: it leads to
/// the same node and costs no more.
pub proof fn lemma_walk_without_loop(
    adj: Map<i32, Seq<Edge>>,
    e: Edge,
    p: Seq<Edge>,
    s: i32,
    t: i32,
) -> (q: Seq<Edge>)
    requires
        e.node_a_id == e.node_b_id,
        e.weight >= 0,
        is_walk(with_edge(adj, e), p, s, t),
    ensures
        is_walk(adj, q, s, t),
        walk_cost(q) <= walk_cost(p),
    decreases p.len(),
{
    if p.len() == 0 {
        p
    } else {
        let x = p.last();
        let front = lemma_walk_without_loop(adj, e, p.drop_last(), s, x.node_a_id);
        if has_edge(adj, x) {
            lemma_walk_extend(adj, front, s, x);
            front.push(x)
        } else {
            let grown = out_edges(with_edge(adj, e), x.node_a_id);
            let j = choose|j: int| 0 <= j < grown.len() && grown[j] == x;
            if x.node_a_id == e.node_a_id {
                if j < out_edges(adj, x.node_a_id).len() {
                    assert(out_edges(adj, x.node_a_id)[j] == x);
                }
            }
            assert(x == e);
            front
        }
    }
}

/// A self-loop of non-negative weight has no effect on cheapest costs: with
/// it and without it the same costs are cheapest between the same nodes.
pub proof fn lemma_self_loop_has_no_effect(adj: Map<i32, Seq<Edge>>, e: Edge, s: i32)
    requires
        e.node_a_id == e.node_b_id,
        e.weight >= 0,
    ensures
        forall|t: i32, c: int|
            is_min_cost(with_edge(adj, e), s, t, c) <==> is_min_cost(adj, s, t, c),
        min_costs(with_edge(adj, e), s) == min_costs(adj, s),
{
    let grown = with_edge(adj, e);
    assert forall|t: i32, c: int| is_min_cost(grown, s, t, c) <==> is_min_cost(adj, s, t, c) by {
        if is_min_cost(grown, s, t, c) {
            let p = choose|p: Seq<Edge>| #[trigger] is_walk(grown, p, s, t) && walk_cost(p) == c;
            let q = lemma_walk_without_loop(adj, e, p, s, t);
            lemma_walk_survives(adj, e, q, s, t);
            assert(is_walk(adj, q, s, t) && walk_cost(q) == c);
            assert forall|r: Seq<Edge>| #[trigger] is_walk(adj, r, s, t) implies c <= walk_cost(
                r,
            ) by {
                lemma_walk_survives(adj, e, r, s, t);
            }
        }
        if is_min_cost(adj, s, t, c) {
            let p = choose|p: Seq<Edge>| #[trigger] is_walk(adj, p, s, t) && walk_cost(p) == c;
            lemma_walk_survives(adj, e, p, s, t);
            assert(is_walk(grown, p, s, t) && walk_cost(p) == c);
            assert forall|r: Seq<Edge>| #[trigger] is_walk(grown, r, s, t) implies c <= walk_cost(
                r,
            ) by {
                let q = lemma_walk_without_loop(adj, e, r, s, t);
                assert(c <= walk_cost(q));
            }
        }
    }
    assert forall|t: i32| within_reach(grown, s, t) <==> within_reach(adj, s, t) by {
        if within_reach(grown, s, t) {
            let c = choose|c: int| 0 <= c < i32::MAX && #[trigger] is_min_cost(grown, s, t, c);
            assert(is_min_cost(adj, s, t, c));
        }
        if within_reach(adj, s, t) {
            let c = choose|c: int| 0 <= c < i32::MAX && #[trigger] is_min_cost(adj, s, t, c);
            assert(is_min_cost(grown, s, t, c));
        }
    }
    assert forall|t: i32| within_reach(adj, s, t) implies min_costs(grown, s)[t] == min_costs(
        adj,
        s,
    )[t] by {
        let c1 = choose|c: int| 0 <= c < i32::MAX && #[trigger] is_min_cost(grown, s, t, c);
        let c2 = choose|c: int| 0 <= c < i32::MAX && #[trigger] is_min_cost(adj, s, t, c);
        assert(within_reach(grown, s, t));
        assert(is_min_cost(adj, s, t, c1));
        lemma_min_cost_unique(adj, s, t, c1, c2);
    }
    assert(min_costs(grown, s) =~= min_costs(adj, s));
}

/// A weighted directed graph, built once for one computation and then only read.
pub struct Graph {
    pub edges: HashMap<i32, Vec<Edge>>,
}

impl View for Graph {
    type V = Map<i32, Seq<Edge>>;

    /// The adjacency list: each registered node with its outgoing edges.
    open spec fn view(&self) -> Map<i32, Seq<Edge>> {
        Map::new(|u: i32| self.edges@.contains_key(u), |u: i32| self.edges@[u]@)
    }
}

impl Graph {
    /// The invariant of the adjacency list: every edge's source is its key.
    pub open spec fn wf(&self) -> bool {
        sources_match(self@)
    }

    /// The weights are fit for a shortest-path computation.
    pub open spec fn has_nonnegative_weights(&self) -> bool {
        weights_nonnegative(self@)
    }

    /// The graph without nodes or edges.
    pub fn new() -> (g: Graph)
        ensures
            g@ == Map::<i32, Seq<Edge>>::empty(),
            g.wf(),
            g.has_nonnegative_weights(),
    {
        let g = Graph { edges: HashMap::new() };
        assert(g@ =~= Map::<i32, Seq<Edge>>::empty());
        g
    }

    /// Registers `node`: it gets an empty adjacency entry unless it has one.
    pub fn add_node(&mut self, node: Node)
        ensures
            final(self)@ == with_node(old(self)@, node.id),
            old(self).wf() ==> final(self).wf(),
            old(self).has_nonnegative_weights() ==> final(self).has_nonnegative_weights(),
    {
        if !self.edges.contains_key(&node.id) {
            self.edges.insert(node.id, Vec::new());
            assert(final(self)@ =~= old(self)@.insert(node.id, Seq::empty()));
        }
    }

    /// Appends `edge` to the outgoing edges of its source, which is registered
    /// if it was not. The reverse direction is not added.
    pub fn add_edge(&mut self, edge: Edge)
        ensures
            final(self)@ == with_edge(old(self)@, edge),
            old(self).wf() ==> final(self).wf(),
            final(self).has_nonnegative_weights() == (old(self).has_nonnegative_weights()
                && edge.weight >= 0),
    {
        let ghost before = self@;
        let mut list: Vec<Edge> = match self.edges.remove(&edge.node_a_id) {
            Some(list) => list,
            None => Vec::new(),
        };
        assert(list@ == out_edges(before, edge.node_a_id));
        list.push(edge);
        self.edges.insert(edge.node_a_id, list);
        proof {
            let after = self@;
            let grown = out_edges(before, edge.node_a_id).push(edge);
            assert(after =~= before.insert(edge.node_a_id, grown));
            assert(grown[grown.len() - 1] == edge);
            if sources_match(before) {
                assert forall|u: i32, j: int|
                    after.contains_key(u) && 0 <= j < after[u].len() implies (
                #[trigger] after[u][j]).node_a_id == u by {
                    if u == edge.node_a_id {
                        if j < grown.len() - 1 {
                            assert(grown[j] == before[u][j]);
                        }
                    } else {
                        assert(after[u][j] == before[u][j]);
                    }
                }
            }
            if weights_nonnegative(before) && edge.weight >= 0 {
                assert forall|u: i32, j: int|
                    after.contains_key(u) && 0 <= j < after[u].len() implies (
                #[trigger] after[u][j]).weight >= 0 by {
                    if u == edge.node_a_id {
                        if j < grown.len() - 1 {
                            assert(grown[j] == before[u][j]);
                        }
                    } else {
                        assert(after[u][j] == before[u][j]);
                    }
                }
            }
            if weights_nonnegative(after) {
                assert(after[edge.node_a_id][grown.len() - 1] == edge);
                assert forall|u: i32, j: int|
                    before.contains_key(u) && 0 <= j < before[u].len() implies (
                #[trigger] before[u][j]).weight >= 0 by {
                    assert(after[u][j] == before[u][j]);
                }
            }
        }
    }

    /// The outgoing edges of `node_id`, if it has an adjacency entry.
    pub fn edges_from(&self, node_id: i32) -> (list: Option<&Vec<Edge>>)
        ensures
            match list {
                Some(l) => self@.contains_key(node_id) && l@ == self@[node_id],
                None => !self@.contains_key(node_id),
            },
    {
        self.edges.get(&node_id)
    }
}

} // verus!
