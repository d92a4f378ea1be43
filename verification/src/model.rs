//! The plain records that the dispatch logic reads and writes.

use vstd::prelude::*;

verus! {

/// A location of the road network. It belongs to exactly one area.
#[derive(Clone, Copy, Debug, PartialEq, Eq, Structural)]
pub struct Node {
    pub id: i32,
    pub area_id: i32,
}

/// A directed road segment from `node_a_id` to `node_b_id` with its travel cost.
#[derive(Clone, Copy, Debug, PartialEq, Eq, Structural)]
pub struct Edge {
    pub node_a_id: i32,
    pub node_b_id: i32,
    pub weight: i32,
}

/// The status of a truck that can be sent.
pub const STATUS_AVAILABLE: &'static str = "available";

/// The status of a truck that was sent for an order.
pub const STATUS_BUSY: &'static str = "busy";

/// The status of an order that waits for a truck.
pub const STATUS_PENDING: &'static str = "pending";

/// The status of an order for which a truck was sent.
pub const STATUS_DISPATCHED: &'static str = "dispatched";

/// The status of an order that is done.
pub const STATUS_COMPLETED: &'static str = "completed";

/// A tow truck, where it stands, and whether it is free.
#[derive(Clone, Debug, PartialEq, Eq)]
pub struct TowTruck {
    pub id: i32,
    pub driver_id: i32,
    pub node_id: i32,
    pub area_id: i32,
    pub status: String,
}

/// A pickup order. `order_time` and `completed_time` count microseconds
/// since the Unix epoch.
#[derive(Clone, Debug, PartialEq, Eq)]
pub struct Order {
    pub id: i32,
    pub client_id: i32,
    pub dispatcher_id: Option<i32>,
    pub tow_truck_id: Option<i32>,
    pub status: String,
    pub node_id: i32,
    pub area_id: i32,
    pub order_time: i64,
    pub completed_time: Option<i64>,
}

/// The fact that a truck was sent for an order, with the time in
/// microseconds since the Unix epoch. It is written once and never changed.
#[derive(Clone, Copy, Debug, PartialEq, Eq, Structural)]
pub struct CompletionRecord {
    pub order_id: i32,
    pub tow_truck_id: i32,
    pub completed_time: i64,
}

/// Why an operation failed.
#[derive(Clone, Copy, Debug, PartialEq, Eq, Structural)]
pub enum AppError {
    /// The order, truck or node asked for does not exist.
    NotFound,
    /// The request could not be carried out as given.
    BadRequest,
    /// A store failed for a reason of its own.
    Internal,
}

} // verus!
