//! Nearest-truck dispatch over a weighted road graph.
//!
//! The crate holds the road graph and its shortest-path computation, the
//! policy that picks the nearest tow truck for an order, and the ordered
//! transition that commits a dispatch. Beside them stand an in-memory ledger
//! on which a dispatch can be carried out, the names shown with a list of
//! orders, and the text of the queries that fetch such a list.

pub mod model;
pub mod graph;
pub mod frontier;
pub mod shortest_path;
pub mod selector;
pub mod dispatch;
pub mod ledger;
pub mod listing;
pub mod paging;
