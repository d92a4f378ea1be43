//! Single-source shortest paths over the road graph.

use vstd::prelude::*;
use vstd::multiset::Multiset;
use std::collections::HashMap;
use crate::frontier::{Frontier, State};
use crate::graph::{
    has_edge, is_min_cost, is_walk, lemma_min_cost_unique, lemma_walk_extend, min_costs,
    out_edges, reachable_at, sources_match, walk_cost, weights_nonnegative, within_reach, Graph,
};
use crate::model::Edge;

verus! {

broadcast use {vstd::std_specs::hash::group_hash_axioms, vstd::multiset::group_multiset_axioms};

/// The edge `e`, leaving a node reached at cost `c`, cannot improve `dist`.
spec fn relaxed(dist: Map<i32, i32>, c: int, e: Edge) -> bool {
    c + e.weight >= i32::MAX || (dist.contains_key(e.node_b_id) && dist[e.node_b_id] <= c
        + e.weight)
}

/// No edge that leaves `u` can improve `dist`.
spec fn settled(adj: Map<i32, Seq<Edge>>, dist: Map<i32, i32>, u: i32) -> bool {
    forall|j: int|
        0 <= j < out_edges(adj, u).len() ==> relaxed(
            dist,
            dist[u] as int,
            #[trigger] out_edges(adj, u)[j],
        )
}

/// `u` waits in the queue at its current cost.
spec fn pending(dist: Map<i32, i32>, q: Multiset<State>, u: i32) -> bool {
    q.count(State { node_id: u, cost: dist[u] }) > 0
}

/// Every recorded cost is that of some walk from `start`, and below the limit.
spec fn costs_witnessed(adj: Map<i32, Seq<Edge>>, start: i32, dist: Map<i32, i32>) -> bool {
    forall|v: i32| #[trigger]
        dist.contains_key(v) ==> 0 <= dist[v] < i32::MAX && reachable_at(
            adj,
            start,
            v,
            dist[v] as int,
        )
}

/// Every queued entry names a recorded node, at no less than its recorded cost.
spec fn queue_sound(dist: Map<i32, i32>, q: Multiset<State>) -> bool {
    forall|s: State| #[trigger]
        q.count(s) > 0 ==> dist.contains_key(s.node_id) && dist[s.node_id] <= s.cost
}

/// Every recorded node but `skip` is settled or waits in the queue.
spec fn others_covered(
    adj: Map<i32, Seq<Edge>>,
    dist: Map<i32, i32>,
    q: Multiset<State>,
    skip: Option<i32>,
) -> bool {
    forall|x: i32| #[trigger]
        dist.contains_key(x) && skip != Some(x) ==> settled(adj, dist, x) || pending(dist, q, x)
}

/// What the search keeps true between two steps.
spec fn search_inv(
    adj: Map<i32, Seq<Edge>>,
    start: i32,
    dist: Map<i32, i32>,
    q: Multiset<State>,
    skip: Option<i32>,
) -> bool {
    &&& dist.contains_key(start) && dist[start] == 0
    &&& costs_witnessed(adj, start, dist)
    &&& queue_sound(dist, q)
    &&& others_covered(adj, dist, q, skip)
}

/// The recorded cost of node `k`, or the limit where none is recorded.
spec fn cost_or_limit(dist: Map<i32, i32>, k: int) -> int {
    if dist.contains_key(k as i32) {
        dist[k as i32] as int
    } else {
        i32::MAX as int
    }
}

/// The sum of `cost_or_limit` over the nodes from `lo` upwards: what is left
/// for the search to improve.
spec fn slack(dist: Map<i32, i32>, lo: int) -> int
    decreases i32::MAX + 1 - lo,
{
    if lo > i32::MAX {
        0
    } else {
        cost_or_limit(dist, lo) + slack(dist, lo + 1)
    }
}

proof fn lemma_slack_nonnegative(dist: Map<i32, i32>, lo: int)
    requires
        forall|v: i32| #[trigger] dist.contains_key(v) ==> 0 <= dist[v],
    ensures
        slack(dist, lo) >= 0,
    decreases i32::MAX + 1 - lo,
{
    if lo <= i32::MAX {
        lemma_slack_nonnegative(dist, lo + 1);
    }
}

proof fn lemma_slack_insert(dist: Map<i32, i32>, v: i32, c: i32, lo: int)
    requires
        i32::MIN <= lo,
    ensures
        slack(dist.insert(v, c), lo) == slack(dist, lo) - (if lo <= v {
            cost_or_limit(dist, v as int) - c
        } else {
            0
        }),
    decreases i32::MAX + 1 - lo,
{
    if lo <= i32::MAX {
        lemma_slack_insert(dist, v, c, lo + 1);
        if lo != v {
            assert(lo as i32 != v);
            assert(cost_or_limit(dist.insert(v, c), lo) == cost_or_limit(dist, lo));
        }
    }
}

/// With non-negative weights no walk costs less than nothing, and a walk costs
/// no less than the walk without its last edge.
proof fn lemma_walk_cost_nonnegative(adj: Map<i32, Seq<Edge>>, p: Seq<Edge>, s: i32, t: i32)
    requires
        weights_nonnegative(adj),
        is_walk(adj, p, s, t),
    ensures
        walk_cost(p) >= 0,
        p.len() > 0 ==> p.last().weight >= 0 && walk_cost(p.drop_last()) <= walk_cost(p),
    decreases p.len(),
{
    if p.len() > 0 {
        let e = p.last();
        let j = choose|j: int|
            0 <= j < out_edges(adj, e.node_a_id).len() && out_edges(adj, e.node_a_id)[j] == e;
        assert(adj[e.node_a_id][j].weight >= 0);
        lemma_walk_cost_nonnegative(adj, p.drop_last(), s, e.node_a_id);
    }
}

/// Once every recorded node is settled, no walk below the limit undercuts
/// the recorded cost of the node it ends in, and that node is recorded.
proof fn lemma_settled_is_minimal(
    adj: Map<i32, Seq<Edge>>,
    start: i32,
    dist: Map<i32, i32>,
    p: Seq<Edge>,
    t: i32,
)
    requires
        weights_nonnegative(adj),
        search_inv(adj, start, dist, Multiset::<State>::empty(), None),
        is_walk(adj, p, start, t),
        walk_cost(p) < i32::MAX,
    ensures
        dist.contains_key(t),
        dist[t] <= walk_cost(p),
    decreases p.len(),
{
    if p.len() > 0 {
        let e = p.last();
        let u = e.node_a_id;
        lemma_walk_cost_nonnegative(adj, p, start, t);
        lemma_settled_is_minimal(adj, start, dist, p.drop_last(), u);
        assert(dist.contains_key(u));
        assert(!pending(dist, Multiset::<State>::empty(), u));
        assert(settled(adj, dist, u));
        let j = choose|j: int| 0 <= j < out_edges(adj, u).len() && out_edges(adj, u)[j] == e;
        assert(relaxed(dist, dist[u] as int, out_edges(adj, u)[j]));
    }
}

/// Recording the cheaper cost `c + e.weight` for the target of `e`, and
/// queueing the target at that cost, keeps the search's invariant.
proof fn lemma_improve(
    adj: Map<i32, Seq<Edge>>,
    start: i32,
    dist: Map<i32, i32>,
    q: Multiset<State>,
    u: i32,
    j: int,
)
    requires
        sources_match(adj),
        weights_nonnegative(adj),
        search_inv(adj, start, dist, q, Some(u)),
        dist.contains_key(u),
        0 <= j < out_edges(adj, u).len(),
        dist[u] + out_edges(adj, u)[j].weight < cost_or_limit(
            dist,
            out_edges(adj, u)[j].node_b_id as int,
        ),
    ensures
        ({
            let e = out_edges(adj, u)[j];
            let c = (dist[u] + e.weight) as i32;
            let grown = dist.insert(e.node_b_id, c);
            &&& c == dist[u] + e.weight
            &&& e.node_b_id != u
            &&& search_inv(
                adj,
                start,
                grown,
                q.insert(State { node_id: e.node_b_id, cost: c }),
                Some(u),
            )
            &&& forall|f: Edge| relaxed(dist, dist[u] as int, f) ==> relaxed(grown, dist[u] as int, f)
            &&& relaxed(grown, dist[u] as int, e)
        }),
{
    let e = out_edges(adj, u)[j];
    let v = e.node_b_id;
    let c = (dist[u] + e.weight) as i32;
    let grown = dist.insert(v, c);
    let entry = State { node_id: v, cost: c };
    let longer = q.insert(entry);
    assert(adj.contains_key(u));
    assert(adj[u][j].weight >= 0);
    assert(adj[u][j].node_a_id == u);
    assert(has_edge(adj, e));
    // the new cost is that of a walk
    let p = choose|p: Seq<Edge>| #[trigger] is_walk(adj, p, start, u) && walk_cost(p) == dist[u];
    lemma_walk_extend(adj, p, start, e);
    assert(reachable_at(adj, start, v, c as int));
    assert(costs_witnessed(adj, start, grown));
    assert forall|s: State| #[trigger] longer.count(s) > 0 implies grown.contains_key(s.node_id)
        && grown[s.node_id] <= s.cost by {
        if s != entry {
            assert(q.count(s) > 0);
        }
    }
    assert forall|x: i32| #[trigger] grown.contains_key(x) && Some(u) != Some(x) implies settled(
        adj,
        grown,
        x,
    ) || pending(grown, longer, x) by {
        if x == v {
            assert(longer.count(entry) > 0);
        } else {
            assert(dist.contains_key(x));
            if pending(dist, q, x) {
                assert(longer.count(State { node_id: x, cost: dist[x] }) > 0);
            } else {
                assert(settled(adj, dist, x));
                assert forall|k: int| 0 <= k < out_edges(adj, x).len() implies relaxed(
                    grown,
                    grown[x] as int,
                    #[trigger] out_edges(adj, x)[k],
                ) by {
                    assert(relaxed(dist, dist[x] as int, out_edges(adj, x)[k]));
                }
            }
        }
    }
}

/// Taking the entry `s` out of the queue keeps the search's invariant when
/// that entry is out of date, or when its node is the one being settled.
proof fn lemma_drop_entry(
    adj: Map<i32, Seq<Edge>>,
    start: i32,
    dist: Map<i32, i32>,
    q: Multiset<State>,
    s: State,
)
    requires
        search_inv(adj, start, dist, q, None),
        q.count(s) > 0,
    ensures
        search_inv(adj, start, dist, q.remove(s), Some(s.node_id)),
        s.cost > dist[s.node_id] ==> search_inv(adj, start, dist, q.remove(s), None),
        q.remove(s).len() == q.len() - 1,
{
    let rest = q.remove(s);
    assert forall|x: i32| #[trigger]
        dist.contains_key(x) && (x != s.node_id || s.cost > dist[x]) implies settled(adj, dist, x)
        || pending(dist, rest, x) by {
        if pending(dist, q, x) {
            let waiting = State { node_id: x, cost: dist[x] };
            assert(waiting != s);
            assert(rest.count(waiting) == q.count(waiting));
        }
    }
    assert forall|t: State| #[trigger] rest.count(t) > 0 implies dist.contains_key(t.node_id)
        && dist[t.node_id] <= t.cost by {
        assert(q.count(t) > 0);
    }
}

impl Graph {
    /// The cheapest cost from `start_node_id` to every node that a walk of
    /// cost below `i32::MAX` reaches. Nodes that no such walk reaches have no
    /// entry. The start node itself always has the entry 0.
    pub fn dijkstra(&self, start_node_id: i32) -> (distances: HashMap<i32, i32>)
        requires
            self.wf(),
            self.has_nonnegative_weights(),
        ensures
            distances@.contains_key(start_node_id) && distances@[start_node_id] == 0,
            forall|t: i32| #[trigger]
                distances@.contains_key(t) ==> 0 <= distances@[t] < i32::MAX && is_min_cost(
                    self@,
                    start_node_id,
                    t,
                    distances@[t] as int,
                ),
            forall|t: i32, p: Seq<Edge>| #[trigger]
                is_walk(self@, p, start_node_id, t) && walk_cost(p) < i32::MAX
                    ==> distances@.contains_key(t),
            distances@ == min_costs(self@, start_node_id),
    {
        let mut distances: HashMap<i32, i32> = HashMap::new();
        let mut heap = Frontier::new();

        distances.insert(start_node_id, 0);
        heap.push(State { node_id: start_node_id, cost: 0 });
        proof {
            let first = State { node_id: start_node_id, cost: 0 };
            assert(heap@.count(first) > 0);
            assert forall|s: State| #[trigger] heap@.count(s) > 0 implies s == first by {
                if s != first {
                    assert(heap@.count(s) == Multiset::<State>::empty().count(s));
                }
            }
            assert(is_walk(self@, Seq::<Edge>::empty(), start_node_id, start_node_id));
            assert(walk_cost(Seq::<Edge>::empty()) == 0);
            assert(reachable_at(self@, start_node_id, start_node_id, 0));
            assert(pending(distances@, heap@, start_node_id));
            lemma_slack_nonnegative(distances@, i32::MIN as int);
        }

        while !heap.is_empty()
            invariant
                self.wf(),
                self.has_nonnegative_weights(),
                heap.wf(),
                search_inv(self@, start_node_id, distances@, heap@, None),
                slack(distances@, i32::MIN as int) >= 0,
            decreases slack(distances@, i32::MIN as int), heap@.len(),
        {
            let ghost queued = heap@;
            let ghost slack_before = slack(distances@, i32::MIN as int);
            let popped = heap.pop();
            let State { node_id, cost } = popped.unwrap();
            proof {
                lemma_drop_entry(
                    self@,
                    start_node_id,
                    distances@,
                    queued,
                    State { node_id, cost },
                );
            }
            let fresh: bool = match distances.get(&node_id) {
                Some(current_cost) => cost <= *current_cost,
                None => true,
            };
            if fresh {
                assert(distances@[node_id] == cost);
                match self.edges_from(node_id) {
                    Some(edges) => {
                        let mut i: usize = 0;
                        while i < edges.len()
                            invariant
                                self.wf(),
                                self.has_nonnegative_weights(),
                                heap.wf(),
                                0 <= i <= edges.len(),
                                edges@ == out_edges(self@, node_id),
                                distances@.contains_key(node_id),
                                distances@[node_id] == cost,
                                search_inv(
                                    self@,
                                    start_node_id,
                                    distances@,
                                    heap@,
                                    Some(node_id),
                                ),
                                forall|j: int|
                                    0 <= j < i ==> relaxed(
                                        distances@,
                                        cost as int,
                                        #[trigger] edges@[j],
                                    ),
                                slack(distances@, i32::MIN as int) <= slack_before,
                                slack(distances@, i32::MIN as int) == slack_before
                                    ==> heap@.len() == queued.len() - 1,
                                slack(distances@, i32::MIN as int) >= 0,
                            decreases edges.len() - i,
                        {
                            let edge = edges[i];
                            assert(self@[node_id][i as int].weight >= 0);
                            let current_distance: i32 = match distances.get(&edge.node_b_id) {
                                Some(d) => *d,
                                None => i32::MAX,
                            };
                            assert(current_distance == cost_or_limit(
                                distances@,
                                edge.node_b_id as int,
                            ));
                            match cost.checked_add(edge.weight) {
                                Some(next_cost) => {
                                    if next_cost < current_distance {
                                        proof {
                                            lemma_improve(
                                                self@,
                                                start_node_id,
                                                distances@,
                                                heap@,
                                                node_id,
                                                i as int,
                                            );
                                            lemma_slack_insert(
                                                distances@,
                                                edge.node_b_id,
                                                next_cost,
                                                i32::MIN as int,
                                            );
                                        }
                                        distances.insert(edge.node_b_id, next_cost);
                                        heap.push(State { node_id: edge.node_b_id, cost: next_cost });
                                        proof {
                                            lemma_slack_nonnegative(distances@, i32::MIN as int);
                                        }
                                    }
                                },
                                None => {},
                            }
                            i += 1;
                        }
                        assert(settled(self@, distances@, node_id));
                    },
                    None => {
                        assert(settled(self@, distances@, node_id));
                    },
                }
            }
        }

        proof {
            assert(heap@ =~= Multiset::<State>::empty());
            assert forall|t: i32| #[trigger] distances@.contains_key(t) implies is_min_cost(
                self@,
                start_node_id,
                t,
                distances@[t] as int,
            ) by {
                assert forall|p: Seq<Edge>| #[trigger]
                    is_walk(self@, p, start_node_id, t) implies distances@[t] <= walk_cost(p) by {
                    if walk_cost(p) < i32::MAX {
                        lemma_settled_is_minimal(self@, start_node_id, distances@, p, t);
                    }
                }
            }
            assert forall|t: i32, p: Seq<Edge>| #[trigger]
                is_walk(self@, p, start_node_id, t) && walk_cost(p)
                    < i32::MAX implies distances@.contains_key(t) by {
                lemma_settled_is_minimal(self@, start_node_id, distances@, p, t);
            }
            let expected = min_costs(self@, start_node_id);
            assert forall|t: i32| distances@.contains_key(t) <==> expected.contains_key(t) by {
                if within_reach(self@, start_node_id, t) {
                    let c = choose|c: int|
                        0 <= c < i32::MAX && #[trigger] is_min_cost(self@, start_node_id, t, c);
                    let p = choose|p: Seq<Edge>| #[trigger]
                        is_walk(self@, p, start_node_id, t) && walk_cost(p) == c;
                    assert(is_walk(self@, p, start_node_id, t) && walk_cost(p) < i32::MAX);
                }
            }
            assert forall|t: i32| distances@.contains_key(t) implies distances@[t]
                == expected[t] by {
                let c = choose|c: int|
                    0 <= c < i32::MAX && #[trigger] is_min_cost(self@, start_node_id, t, c);
                lemma_min_cost_unique(self@, start_node_id, t, c, distances@[t] as int);
            }
            assert(distances@ =~= expected);
        }
        distances
    }
}

/// The cheapest cost from `node_id_1` to `node_id_2`, or `i32::MAX` where no
/// walk of lesser cost leads there.
pub fn calculate_distance(graph: &Graph, node_id_1: i32, node_id_2: i32) -> (distance: i32)
    requires
        graph.wf(),
        graph.has_nonnegative_weights(),
    ensures
        distance < i32::MAX ==> is_min_cost(graph@, node_id_1, node_id_2, distance as int),
        distance == i32::MAX ==> forall|p: Seq<Edge>| #[trigger]
            is_walk(graph@, p, node_id_1, node_id_2) ==> walk_cost(p) >= i32::MAX,
        0 <= distance,
        distance == (if within_reach(graph@, node_id_1, node_id_2) {
            min_costs(graph@, node_id_1)[node_id_2]
        } else {
            i32::MAX
        }),
{
    let distances_from_node_1 = graph.dijkstra(node_id_1);
    match distances_from_node_1.get(&node_id_2) {
        Some(d) => *d,
        None => i32::MAX,
    }
}

} // verus!
