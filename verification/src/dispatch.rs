//! The two operations of the dispatcher: finding the nearest free truck for
//! an order, and the ordered steps that commit a dispatch.

use vstd::prelude::*;
use crate::graph::{min_costs, with_edge, with_node, Graph};
use crate::model::{AppError, Edge, Node, TowTruck};
use crate::selector::{nearest_candidate, select_nearest};

verus! {

/// The adjacency list `adj` after registering `nodes` in turn.
pub open spec fn with_nodes(adj: Map<i32, Seq<Edge>>, nodes: Seq<Node>) -> Map<i32, Seq<Edge>>
    decreases nodes.len(),
{
    if nodes.len() == 0 {
        adj
    } else {
        with_node(with_nodes(adj, nodes.drop_last()), nodes.last().id)
    }
}

/// The adjacency list `adj` after appending `edges` in turn, each to the
/// outgoing edges of its source.
pub open spec fn with_edges(adj: Map<i32, Seq<Edge>>, edges: Seq<Edge>) -> Map<i32, Seq<Edge>>
    decreases edges.len(),
{
    if edges.len() == 0 {
        adj
    } else {
        with_edge(with_edges(adj, edges.drop_last()), edges.last())
    }
}

/// The graph of an area: its nodes registered, then its edges appended.
pub open spec fn area_graph(nodes: Seq<Node>, edges: Seq<Edge>) -> Map<i32, Seq<Edge>> {
    with_edges(with_nodes(Map::empty(), nodes), edges)
}

/// No edge of the list has a negative weight.
pub open spec fn all_nonnegative(edges: Seq<Edge>) -> bool {
    forall|i: int| 0 <= i < edges.len() ==> (#[trigger] edges[i]).weight >= 0
}

/// Whether no edge of the list has a negative weight.
pub fn weights_are_nonnegative(edges: &Vec<Edge>) -> (ok: bool)
    ensures
        ok == all_nonnegative(edges@),
{
    let mut i: usize = 0;
    while i < edges.len()
        invariant
            0 <= i <= edges.len(),
            forall|j: int| 0 <= j < i ==> (#[trigger] edges@[j]).weight >= 0,
        decreases edges.len() - i,
    {
        if edges[i].weight < 0 {
            return false;
        }
        i += 1;
    }
    true
}

/// Builds the graph of an area from its nodes and edges.
pub fn build_area_graph(nodes: &Vec<Node>, edges: &Vec<Edge>) -> (graph: Graph)
    ensures
        graph@ == area_graph(nodes@, edges@),
        graph.wf(),
        graph.has_nonnegative_weights() == all_nonnegative(edges@),
{
    let mut graph = Graph::new();
    let mut i: usize = 0;
    while i < nodes.len()
        invariant
            0 <= i <= nodes.len(),
            graph@ == with_nodes(Map::empty(), nodes@.take(i as int)),
            graph.wf(),
            graph.has_nonnegative_weights(),
        decreases nodes.len() - i,
    {
        proof {
            let next = nodes@.take(i + 1);
            assert(next.drop_last() =~= nodes@.take(i as int));
            assert(next.last() == nodes@[i as int]);
        }
        graph.add_node(nodes[i]);
        i += 1;
    }
    assert(nodes@.take(nodes.len() as int) =~= nodes@);
    let ghost registered = graph@;
    let mut k: usize = 0;
    while k < edges.len()
        invariant
            0 <= k <= edges.len(),
            registered == with_nodes(Map::empty(), nodes@),
            graph@ == with_edges(registered, edges@.take(k as int)),
            graph.wf(),
            graph.has_nonnegative_weights() == all_nonnegative(edges@.take(k as int)),
        decreases edges.len() - k,
    {
        proof {
            let next = edges@.take(k + 1);
            let seen = edges@.take(k as int);
            assert(next.drop_last() =~= seen);
            assert(next.last() == edges@[k as int]);
            if all_nonnegative(next) {
                assert(next[k as int].weight >= 0);
                assert forall|j: int| 0 <= j < seen.len() implies (#[trigger] seen[j]).weight
                    >= 0 by {
                    assert(next[j] == seen[j]);
                }
            }
            if all_nonnegative(seen) && edges@[k as int].weight >= 0 {
                assert forall|j: int| 0 <= j < next.len() implies (#[trigger] next[j]).weight
                    >= 0 by {
                    if j < k {
                        assert(next[j] == seen[j]);
                    }
                }
            }
        }
        graph.add_edge(edges[k]);
        k += 1;
    }
    assert(edges@.take(edges.len() as int) =~= edges@);
    graph
}

/// The nearest of `tow_trucks` to the order at `order_node_id`, over the
/// graph of the order's area. The trucks are those that are free in that
/// area; `nodes` and `edges` are the area's. Nothing is picked where no
/// truck is within reach.
pub fn nearest_available_tow_truck(
    order_node_id: i32,
    tow_trucks: Vec<TowTruck>,
    nodes: &Vec<Node>,
    edges: &Vec<Edge>,
) -> (nearest: Option<TowTruck>)
    requires
        all_nonnegative(edges@),
    ensures
        nearest == nearest_candidate(
            min_costs(area_graph(nodes@, edges@), order_node_id),
            tow_trucks@,
        ),
{
    let graph = build_area_graph(nodes, edges);
    let distances_from_order = graph.dijkstra(order_node_id);
    select_nearest(&distances_from_order, tow_trucks)
}

/// What a dispatch commits: the truck `tow_truck_id` is sent for the order
/// `order_id` by the dispatcher `dispatcher_id` at `order_time`, in
/// microseconds since the Unix epoch.
#[derive(Clone, Copy, Debug, PartialEq, Eq, Structural)]
pub struct DispatchRequest {
    pub order_id: i32,
    pub dispatcher_id: i32,
    pub tow_truck_id: i32,
    pub order_time: i64,
}

/// One write that a dispatch asks of a store.
#[derive(Clone, Copy, Debug, PartialEq, Eq, Structural)]
pub enum DispatchEffect {
    /// Record that the truck was sent for the order at the given time.
    CreateCompletedOrder { order_id: i32, tow_truck_id: i32, completed_time: i64 },
    /// Mark the order dispatched, with its dispatcher and truck.
    UpdateOrderDispatched { order_id: i32, dispatcher_id: i32, tow_truck_id: i32 },
    /// Mark the truck busy.
    UpdateTruckBusy { tow_truck_id: i32 },
}

/// The write that a dispatch is waiting for.
#[derive(Clone, Copy, Debug, PartialEq, Eq, Structural)]
pub enum DispatchStage {
    CreatingRecord,
    MarkingOrder,
    MarkingTruck,
}

/// What follows a write: the next stage, or the end with the dispatch's result.
#[derive(Clone, Copy, Debug, PartialEq, Eq)]
pub enum DispatchNext {
    Continue(DispatchStage),
    Done(Result<(), AppError>),
}

/// The write that belongs to `stage` of `request`.
pub open spec fn effect_of(request: DispatchRequest, stage: DispatchStage) -> DispatchEffect {
    match stage {
        DispatchStage::CreatingRecord => DispatchEffect::CreateCompletedOrder {
            order_id: request.order_id,
            tow_truck_id: request.tow_truck_id,
            completed_time: request.order_time,
        },
        DispatchStage::MarkingOrder => DispatchEffect::UpdateOrderDispatched {
            order_id: request.order_id,
            dispatcher_id: request.dispatcher_id,
            tow_truck_id: request.tow_truck_id,
        },
        DispatchStage::MarkingTruck => DispatchEffect::UpdateTruckBusy {
            tow_truck_id: request.tow_truck_id,
        },
    }
}

/// What follows `stage` once its write ended with `outcome`. A write that
/// fails ends the dispatch with the store's own error, unchanged, and what
/// was written before it stays written.
pub open spec fn after_outcome(stage: DispatchStage, outcome: Result<(), AppError>) -> DispatchNext {
    match (stage, outcome) {
        (DispatchStage::CreatingRecord, Ok(_)) => DispatchNext::Continue(
            DispatchStage::MarkingOrder,
        ),
        (DispatchStage::CreatingRecord, Err(e)) => DispatchNext::Done(Err(e)),
        (DispatchStage::MarkingOrder, Ok(_)) => DispatchNext::Continue(DispatchStage::MarkingTruck),
        (DispatchStage::MarkingOrder, Err(e)) => DispatchNext::Done(Err(e)),
        (DispatchStage::MarkingTruck, _) => DispatchNext::Done(outcome),
    }
}

/// The number of writes still ahead at `stage`, its own included.
pub open spec fn writes_left(stage: DispatchStage) -> nat {
    match stage {
        DispatchStage::CreatingRecord => 3,
        DispatchStage::MarkingOrder => 2,
        DispatchStage::MarkingTruck => 1,
    }
}

/// The stage at which every dispatch begins.
pub fn first_stage() -> (stage: DispatchStage)
    ensures
        stage == DispatchStage::CreatingRecord,
{
    DispatchStage::CreatingRecord
}

/// The write to ask for at `stage` of `request`.
pub fn effect_for(request: &DispatchRequest, stage: DispatchStage) -> (effect: DispatchEffect)
    ensures
        effect == effect_of(*request, stage),
{
    match stage {
        DispatchStage::CreatingRecord => DispatchEffect::CreateCompletedOrder {
            order_id: request.order_id,
            tow_truck_id: request.tow_truck_id,
            completed_time: request.order_time,
        },
        DispatchStage::MarkingOrder => DispatchEffect::UpdateOrderDispatched {
            order_id: request.order_id,
            dispatcher_id: request.dispatcher_id,
            tow_truck_id: request.tow_truck_id,
        },
        DispatchStage::MarkingTruck => DispatchEffect::UpdateTruckBusy {
            tow_truck_id: request.tow_truck_id,
        },
    }
}

/// Decides what follows `stage` once its write ended with `outcome`.
pub fn advance(stage: DispatchStage, outcome: Result<(), AppError>) -> (next: DispatchNext)
    ensures
        next == after_outcome(stage, outcome),
        next matches DispatchNext::Continue(s) ==> writes_left(s) < writes_left(stage),
{
    match stage {
        DispatchStage::CreatingRecord => match outcome {
            Ok(_) => DispatchNext::Continue(DispatchStage::MarkingOrder),
            Err(e) => DispatchNext::Done(Err(e)),
        },
        DispatchStage::MarkingOrder => match outcome {
            Ok(_) => DispatchNext::Continue(DispatchStage::MarkingTruck),
            Err(e) => DispatchNext::Done(Err(e)),
        },
        DispatchStage::MarkingTruck => DispatchNext::Done(outcome),
    }
}

/// The result of a dispatch whose three writes would end with `record`,
/// `order` and `truck`, and the number of writes that were asked for.
pub open spec fn dispatch_result(
    record: Result<(), AppError>,
    order: Result<(), AppError>,
    truck: Result<(), AppError>,
) -> (Result<(), AppError>, nat) {
    if record is Err {
        (record, 1)
    } else if order is Err {
        (order, 2)
    } else {
        (truck, 3)
    }
}

/// The dispatch asks for its writes in the order record, order, truck; it
/// stops at the first that fails, with that write's error, and succeeds
/// when all three did.
pub proof fn lemma_dispatch_order(
    record: Result<(), AppError>,
    order: Result<(), AppError>,
    truck: Result<(), AppError>,
)
    ensures
        after_outcome(DispatchStage::CreatingRecord, record) == (if record is Ok {
            DispatchNext::Continue(DispatchStage::MarkingOrder)
        } else {
            DispatchNext::Done(dispatch_result(record, order, truck).0)
        }),
        record is Ok ==> after_outcome(DispatchStage::MarkingOrder, order) == (if order is Ok {
            DispatchNext::Continue(DispatchStage::MarkingTruck)
        } else {
            DispatchNext::Done(dispatch_result(record, order, truck).0)
        }),
        record is Ok && order is Ok ==> after_outcome(DispatchStage::MarkingTruck, truck)
            == DispatchNext::Done(dispatch_result(record, order, truck).0),
        dispatch_result(record, order, truck).0 is Ok <==> record is Ok && order is Ok
            && truck is Ok,
{
}

/// A store's failure reaches the caller as the store gave it: whatever the
/// stage, a failed write ends the dispatch with that very error.
pub proof fn lemma_failure_is_handed_on(stage: DispatchStage, error: AppError)
    ensures
        after_outcome(stage, Err(error)) == DispatchNext::Done(Err(error)),
{
}

} // verus!
