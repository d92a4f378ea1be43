//! The policy that picks the nearest truck among the candidates.

use vstd::prelude::*;
use std::collections::HashMap;
use crate::model::TowTruck;

verus! {

broadcast use vstd::std_specs::hash::group_hash_axioms;

/// The distance that stands for "no way there". A candidate at this distance
/// or beyond is never picked.
pub const UNREACHABLE: i32 = 10_000_001;

/// The distance recorded for `node_id`, or `UNREACHABLE` where none is.
pub open spec fn effective_distance(distances: Map<i32, i32>, node_id: i32) -> int {
    if distances.contains_key(node_id) {
        distances[node_id] as int
    } else {
        UNREACHABLE as int
    }
}

/// A truck at node `a` is preferred to one at node `b`: it is nearer, or as
/// near and at the node of smaller id.
pub open spec fn preferred(distances: Map<i32, i32>, a: i32, b: i32) -> bool {
    let da = effective_distance(distances, a);
    let db = effective_distance(distances, b);
    da < db || (da == db && a < b)
}

/// The position of the first candidate to which no other is preferred; 0 for
/// the empty list.
pub open spec fn nearest_index(distances: Map<i32, i32>, candidates: Seq<TowTruck>) -> int
    decreases candidates.len(),
{
    if candidates.len() <= 1 {
        0
    } else {
        let k = nearest_index(distances, candidates.drop_last());
        if preferred(distances, candidates.last().node_id, candidates[k].node_id) {
            candidates.len() - 1
        } else {
            k
        }
    }
}

/// The candidate that the policy picks, if any is within reach.
pub open spec fn nearest_candidate(distances: Map<i32, i32>, candidates: Seq<TowTruck>) -> Option<
    TowTruck,
> {
    let k = nearest_index(distances, candidates);
    if candidates.len() == 0 || effective_distance(distances, candidates[k].node_id)
        >= UNREACHABLE {
        None
    } else {
        Some(candidates[k])
    }
}

/// `nearest_index` points at a candidate to which no candidate is preferred,
/// and which is itself preferred to every candidate before it.
pub proof fn lemma_nearest_index(distances: Map<i32, i32>, candidates: Seq<TowTruck>)
    requires
        candidates.len() > 0,
    ensures
        0 <= nearest_index(distances, candidates) < candidates.len(),
        forall|i: int|
            0 <= i < candidates.len() ==> !preferred(
                distances,
                (#[trigger] candidates[i]).node_id,
                candidates[nearest_index(distances, candidates)].node_id,
            ),
        forall|i: int|
            0 <= i < nearest_index(distances, candidates) ==> preferred(
                distances,
                candidates[nearest_index(distances, candidates)].node_id,
                (#[trigger] candidates[i]).node_id,
            ),
    decreases candidates.len(),
{
    if candidates.len() > 1 {
        let front = candidates.drop_last();
        lemma_nearest_index(distances, front);
        let k = nearest_index(distances, front);
        let best = nearest_index(distances, candidates);
        assert(front[k] == candidates[k]);
        assert forall|i: int| 0 <= i < candidates.len() implies !preferred(
            distances,
            (#[trigger] candidates[i]).node_id,
            candidates[best].node_id,
        ) by {
            if i < candidates.len() - 1 {
                assert(front[i] == candidates[i]);
            }
        }
        assert forall|i: int| 0 <= i < best implies preferred(
            distances,
            candidates[best].node_id,
            (#[trigger] candidates[i]).node_id,
        ) by {
            if i < candidates.len() - 1 {
                assert(front[i] == candidates[i]);
            }
        }
    }
}

/// The policy in words: nothing is picked exactly when no candidate is
/// within reach; what is picked is within reach, at least as near as every
/// candidate, at the smallest node id among the nearest, and the first in
/// the list of those that share that node.
pub proof fn lemma_nearest_candidate(distances: Map<i32, i32>, candidates: Seq<TowTruck>)
    ensures
        nearest_candidate(distances, candidates) is None <==> forall|i: int|
            0 <= i < candidates.len() ==> effective_distance(
                distances,
                (#[trigger] candidates[i]).node_id,
            ) >= UNREACHABLE,
        nearest_candidate(distances, candidates) matches Some(t) ==> {
            let k = nearest_index(distances, candidates);
            &&& 0 <= k < candidates.len()
            &&& t == candidates[k]
            &&& effective_distance(distances, t.node_id) < UNREACHABLE
            &&& forall|i: int|
                0 <= i < candidates.len() ==> {
                    let d = effective_distance(distances, (#[trigger] candidates[i]).node_id);
                    let best = effective_distance(distances, t.node_id);
                    best < d || (best == d && t.node_id <= candidates[i].node_id)
                }
            &&& forall|i: int| 0 <= i < k ==> (#[trigger] candidates[i]).node_id != t.node_id
        },
{
    if candidates.len() > 0 {
        lemma_nearest_index(distances, candidates);
        let k = nearest_index(distances, candidates);
        assert forall|i: int| 0 <= i < k implies (#[trigger] candidates[i]).node_id
            != candidates[k].node_id by {
            assert(preferred(distances, candidates[k].node_id, candidates[i].node_id));
        }
        if nearest_candidate(distances, candidates) is None {
            assert forall|i: int| 0 <= i < candidates.len() implies effective_distance(
                distances,
                (#[trigger] candidates[i]).node_id,
            ) >= UNREACHABLE by {
                assert(!preferred(distances, candidates[i].node_id, candidates[k].node_id));
            }
        }
    }
}

/// The recorded distance of `node_id`, or `UNREACHABLE`.
fn distance_to(distances: &HashMap<i32, i32>, node_id: i32) -> (d: i32)
    ensures
        d == effective_distance(distances@, node_id),
{
    match distances.get(&node_id) {
        Some(d) => *d,
        None => UNREACHABLE,
    }
}

/// Picks the nearest candidate: the one of smallest distance, among equals
/// the one at the smallest node id. Candidates whose node has no recorded
/// distance count as out of reach; where all are, nothing is picked.
pub fn select_nearest(distances: &HashMap<i32, i32>, candidates: Vec<TowTruck>) -> (nearest: Option<
    TowTruck,
>)
    ensures
        nearest == nearest_candidate(distances@, candidates@),
{
    let mut candidates = candidates;
    let ghost all = candidates@;
    let n: usize = candidates.len();
    if n == 0 {
        return None;
    }
    let mut best: usize = 0;
    let mut min_distance: i32 = distance_to(distances, candidates[0].node_id);
    let mut min_node_id: i32 = candidates[0].node_id;
    let mut i: usize = 1;
    assert(all.take(1).len() == 1);
    while i < n
        invariant
            candidates@ == all,
            n == all.len(),
            1 <= i <= n,
            0 <= best < i,
            best == nearest_index(distances@, all.take(i as int)),
            min_node_id == all[best as int].node_id,
            min_distance == effective_distance(distances@, min_node_id),
        decreases n - i,
    {
        proof {
            let next = all.take(i + 1);
            assert(next.drop_last() =~= all.take(i as int));
            assert(next.last() == all[i as int]);
            assert(next[best as int] == all[best as int]);
        }
        let node_id: i32 = candidates[i].node_id;
        let distance: i32 = distance_to(distances, node_id);
        if distance < min_distance || (distance == min_distance && node_id < min_node_id) {
            min_distance = distance;
            min_node_id = node_id;
            best = i;
        }
        i += 1;
    }
    proof {
        assert(all.take(n as int) =~= all);
        lemma_nearest_index(distances@, all);
    }
    if min_distance >= UNREACHABLE {
        None
    } else {
        Some(candidates.remove(best))
    }
}

} // verus!
