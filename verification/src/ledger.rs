//! An in-memory record of orders, trucks and completion records, on which
//! the writes of a dispatch take place.

use vstd::prelude::*;
use crate::dispatch::{
    advance, effect_for, first_stage, writes_left, DispatchEffect, DispatchNext,
    DispatchRequest, DispatchStage,
};
use crate::model::{
    AppError, CompletionRecord, Order, TowTruck, STATUS_BUSY, STATUS_DISPATCHED,
};

verus! {

/// `k` is the first position of `id` in `ids`.
pub open spec fn is_first_at(ids: Seq<i32>, id: i32, k: int) -> bool {
    &&& 0 <= k < ids.len()
    &&& ids[k] == id
    &&& forall|j: int| 0 <= j < k ==> ids[j] != id
}

/// The first position of `id` in `ids`, if it occurs.
pub open spec fn position(ids: Seq<i32>, id: i32) -> Option<int> {
    if exists|k: int| is_first_at(ids, id, k) {
        Some(choose|k: int| is_first_at(ids, id, k))
    } else {
        None
    }
}

/// `after` is `before` but for the entry at `k`.
pub open spec fn changed_only_at<T>(before: Seq<T>, after: Seq<T>, k: int) -> bool {
    &&& after.len() == before.len()
    &&& forall|j: int| 0 <= j < before.len() && j != k ==> after[j] == before[j]
}

/// `after` is `before` with the status `status` and nothing else changed.
pub open spec fn order_with_status(before: Order, after: Order, status: Seq<char>) -> bool {
    &&& after.id == before.id
    &&& after.client_id == before.client_id
    &&& after.dispatcher_id == before.dispatcher_id
    &&& after.tow_truck_id == before.tow_truck_id
    &&& after.status@ == status
    &&& after.node_id == before.node_id
    &&& after.area_id == before.area_id
    &&& after.order_time == before.order_time
    &&& after.completed_time == before.completed_time
}

/// `after` is `before` marked dispatched, with the given dispatcher and truck.
pub open spec fn order_dispatched(
    before: Order,
    after: Order,
    dispatcher_id: i32,
    tow_truck_id: i32,
) -> bool {
    &&& after.id == before.id
    &&& after.client_id == before.client_id
    &&& after.dispatcher_id == Some(dispatcher_id)
    &&& after.tow_truck_id == Some(tow_truck_id)
    &&& after.status@ == STATUS_DISPATCHED@
    &&& after.node_id == before.node_id
    &&& after.area_id == before.area_id
    &&& after.order_time == before.order_time
    &&& after.completed_time == before.completed_time
}

/// `after` is `before` marked busy.
pub open spec fn truck_busy(before: TowTruck, after: TowTruck) -> bool {
    &&& after.id == before.id
    &&& after.driver_id == before.driver_id
    &&& after.node_id == before.node_id
    &&& after.area_id == before.area_id
    &&& after.status@ == STATUS_BUSY@
}

/// The orders, trucks and completion records that a dispatch reads and writes.
pub struct DispatchLedger {
    pub orders: Vec<Order>,
    pub tow_trucks: Vec<TowTruck>,
    pub completed_orders: Vec<CompletionRecord>,
}

/// The ids of the orders, in the ledger's order.
pub open spec fn order_ids(orders: Seq<Order>) -> Seq<i32> {
    Seq::new(orders.len(), |i: int| orders[i].id)
}

/// The ids of the trucks, in the ledger's order.
pub open spec fn truck_ids(tow_trucks: Seq<TowTruck>) -> Seq<i32> {
    Seq::new(tow_trucks.len(), |i: int| tow_trucks[i].id)
}

/// The first order with the given id is marked dispatched; without such an
/// order nothing changes.
pub open spec fn orders_after_dispatch(
    before: Seq<Order>,
    after: Seq<Order>,
    order_id: i32,
    dispatcher_id: i32,
    tow_truck_id: i32,
) -> bool {
    match position(order_ids(before), order_id) {
        Some(k) => changed_only_at(before, after, k) && order_dispatched(
            before[k],
            after[k],
            dispatcher_id,
            tow_truck_id,
        ),
        None => after == before,
    }
}

/// The first truck with the given id is marked busy; without such a truck
/// nothing changes.
pub open spec fn trucks_after_dispatch(
    before: Seq<TowTruck>,
    after: Seq<TowTruck>,
    tow_truck_id: i32,
) -> bool {
    match position(truck_ids(before), tow_truck_id) {
        Some(k) => changed_only_at(before, after, k) && truck_busy(before[k], after[k]),
        None => after == before,
    }
}

/// What one write does to the ledger, and how it ends: a record is appended
/// and never refused; an update changes the first entry with the id, and
/// fails as not found, changing nothing, where there is none.
pub open spec fn performed(
    before: DispatchLedger,
    after: DispatchLedger,
    effect: DispatchEffect,
    outcome: Result<(), AppError>,
) -> bool {
    match effect {
        DispatchEffect::CreateCompletedOrder { order_id, tow_truck_id, completed_time } => {
            &&& outcome is Ok
            &&& after.completed_orders@ == before.completed_orders@.push(
                CompletionRecord { order_id, tow_truck_id, completed_time },
            )
            &&& after.orders@ == before.orders@
            &&& after.tow_trucks@ == before.tow_trucks@
        },
        DispatchEffect::UpdateOrderDispatched { order_id, dispatcher_id, tow_truck_id } => {
            &&& after.completed_orders@ == before.completed_orders@
            &&& after.tow_trucks@ == before.tow_trucks@
            &&& orders_after_dispatch(
                before.orders@,
                after.orders@,
                order_id,
                dispatcher_id,
                tow_truck_id,
            )
            &&& outcome == (if position(order_ids(before.orders@), order_id) is Some {
                Ok::<(), AppError>(())
            } else {
                Err(AppError::NotFound)
            })
        },
        DispatchEffect::UpdateTruckBusy { tow_truck_id } => {
            &&& after.completed_orders@ == before.completed_orders@
            &&& after.orders@ == before.orders@
            &&& trucks_after_dispatch(before.tow_trucks@, after.tow_trucks@, tow_truck_id)
            &&& outcome == (if position(truck_ids(before.tow_trucks@), tow_truck_id) is Some {
                Ok::<(), AppError>(())
            } else {
                Err(AppError::NotFound)
            })
        },
    }
}

/// What a dispatch does to the ledger, and how it ends. The record is
/// written first and stays whatever follows. Then the order is marked; if
/// there is no such order the dispatch fails there and the trucks are left
/// alone. Then the truck is marked; if there is no such truck the dispatch
/// fails, with the record and the order already written.
pub open spec fn committed(
    before: DispatchLedger,
    after: DispatchLedger,
    request: DispatchRequest,
    outcome: Result<(), AppError>,
) -> bool {
    let order_known = position(order_ids(before.orders@), request.order_id) is Some;
    let truck_known = position(truck_ids(before.tow_trucks@), request.tow_truck_id) is Some;
    &&& after.completed_orders@ == before.completed_orders@.push(
        CompletionRecord {
            order_id: request.order_id,
            tow_truck_id: request.tow_truck_id,
            completed_time: request.order_time,
        },
    )
    &&& orders_after_dispatch(
        before.orders@,
        after.orders@,
        request.order_id,
        request.dispatcher_id,
        request.tow_truck_id,
    )
    &&& if order_known {
        trucks_after_dispatch(before.tow_trucks@, after.tow_trucks@, request.tow_truck_id)
    } else {
        after.tow_trucks@ == before.tow_trucks@
    }
    &&& outcome == (if order_known && truck_known {
        Ok::<(), AppError>(())
    } else {
        Err(AppError::NotFound)
    })
}

/// The ledger as it stands when a dispatch that began at `before` waits for
/// the write of `stage`.
spec fn reached(
    before: DispatchLedger,
    now: DispatchLedger,
    request: DispatchRequest,
    stage: DispatchStage,
) -> bool {
    let record = CompletionRecord {
        order_id: request.order_id,
        tow_truck_id: request.tow_truck_id,
        completed_time: request.order_time,
    };
    match stage {
        DispatchStage::CreatingRecord => {
            &&& now.completed_orders@ == before.completed_orders@
            &&& now.orders@ == before.orders@
            &&& now.tow_trucks@ == before.tow_trucks@
        },
        DispatchStage::MarkingOrder => {
            &&& now.completed_orders@ == before.completed_orders@.push(record)
            &&& now.orders@ == before.orders@
            &&& now.tow_trucks@ == before.tow_trucks@
        },
        DispatchStage::MarkingTruck => {
            &&& now.completed_orders@ == before.completed_orders@.push(record)
            &&& position(order_ids(before.orders@), request.order_id) is Some
            &&& orders_after_dispatch(
                before.orders@,
                now.orders@,
                request.order_id,
                request.dispatcher_id,
                request.tow_truck_id,
            )
            &&& now.tow_trucks@ == before.tow_trucks@
        },
    }
}

/// The first position of `id` among `ids`, found from the front.
fn find_id(ids: &Vec<i32>, id: i32) -> (at: Option<usize>)
    ensures
        at matches Some(k) ==> position(ids@, id) == Some(k as int),
        at is None ==> position(ids@, id) is None,
{
    let mut i: usize = 0;
    while i < ids.len()
        invariant
            0 <= i <= ids.len(),
            forall|j: int| 0 <= j < i ==> ids@[j] != id,
        decreases ids.len() - i,
    {
        if ids[i] == id {
            assert(is_first_at(ids@, id, i as int));
            return Some(i);
        }
        i += 1;
    }
    None
}

impl DispatchLedger {
    /// The position of the first order with the id `order_id`.
    pub fn find_order(&self, order_id: i32) -> (at: Option<usize>)
        ensures
            at matches Some(k) ==> position(order_ids(self.orders@), order_id) == Some(k as int),
            at is None ==> position(order_ids(self.orders@), order_id) is None,
    {
        let mut ids: Vec<i32> = Vec::new();
        let mut i: usize = 0;
        while i < self.orders.len()
            invariant
                0 <= i <= self.orders.len(),
                ids@ == order_ids(self.orders@.take(i as int)),
            decreases self.orders.len() - i,
        {
            ids.push(self.orders[i].id);
            assert(ids@ =~= order_ids(self.orders@.take(i + 1)));
            i += 1;
        }
        assert(self.orders@.take(self.orders.len() as int) =~= self.orders@);
        find_id(&ids, order_id)
    }

    /// The position of the first truck with the id `tow_truck_id`.
    pub fn find_tow_truck(&self, tow_truck_id: i32) -> (at: Option<usize>)
        ensures
            at matches Some(k) ==> position(truck_ids(self.tow_trucks@), tow_truck_id) == Some(
                k as int,
            ),
            at is None ==> position(truck_ids(self.tow_trucks@), tow_truck_id) is None,
    {
        let mut ids: Vec<i32> = Vec::new();
        let mut i: usize = 0;
        while i < self.tow_trucks.len()
            invariant
                0 <= i <= self.tow_trucks.len(),
                ids@ == truck_ids(self.tow_trucks@.take(i as int)),
            decreases self.tow_trucks.len() - i,
        {
            ids.push(self.tow_trucks[i].id);
            assert(ids@ =~= truck_ids(self.tow_trucks@.take(i + 1)));
            i += 1;
        }
        assert(self.tow_trucks@.take(self.tow_trucks.len() as int) =~= self.tow_trucks@);
        find_id(&ids, tow_truck_id)
    }

    /// Writes `status` to the first order with the id `order_id`, whatever
    /// the order's status was and whatever `status` says.
    pub fn update_order_status(&mut self, order_id: i32, status: &str) -> (outcome: Result<
        (),
        AppError,
    >)
        ensures
            final(self).tow_trucks@ == old(self).tow_trucks@,
            final(self).completed_orders@ == old(self).completed_orders@,
            match position(order_ids(old(self).orders@), order_id) {
                Some(k) => {
                    &&& outcome is Ok
                    &&& changed_only_at(old(self).orders@, final(self).orders@, k)
                    &&& order_with_status(old(self).orders@[k], final(self).orders@[k], status@)
                },
                None => outcome == Err::<(), AppError>(AppError::NotFound) && final(self).orders@
                    == old(self).orders@,
            },
    {
        match self.find_order(order_id) {
            Some(k) => {
                let o = &self.orders[k];
                let updated = Order {
                    id: o.id,
                    client_id: o.client_id,
                    dispatcher_id: o.dispatcher_id,
                    tow_truck_id: o.tow_truck_id,
                    status: status.to_owned(),
                    node_id: o.node_id,
                    area_id: o.area_id,
                    order_time: o.order_time,
                    completed_time: o.completed_time,
                };
                self.orders.set(k, updated);
                Ok(())
            },
            None => Err(AppError::NotFound),
        }
    }

    /// Carries out one write of a dispatch.
    pub fn perform(&mut self, effect: DispatchEffect) -> (outcome: Result<(), AppError>)
        ensures
            performed(*old(self), *final(self), effect, outcome),
    {
        match effect {
            DispatchEffect::CreateCompletedOrder { order_id, tow_truck_id, completed_time } => {
                self.completed_orders.push(
                    CompletionRecord { order_id, tow_truck_id, completed_time },
                );
                Ok(())
            },
            DispatchEffect::UpdateOrderDispatched { order_id, dispatcher_id, tow_truck_id } => {
                match self.find_order(order_id) {
                    Some(k) => {
                        let o = &self.orders[k];
                        let updated = Order {
                            id: o.id,
                            client_id: o.client_id,
                            dispatcher_id: Some(dispatcher_id),
                            tow_truck_id: Some(tow_truck_id),
                            status: STATUS_DISPATCHED.to_owned(),
                            node_id: o.node_id,
                            area_id: o.area_id,
                            order_time: o.order_time,
                            completed_time: o.completed_time,
                        };
                        self.orders.set(k, updated);
                        Ok(())
                    },
                    None => Err(AppError::NotFound),
                }
            },
            DispatchEffect::UpdateTruckBusy { tow_truck_id } => {
                match self.find_tow_truck(tow_truck_id) {
                    Some(k) => {
                        let t = &self.tow_trucks[k];
                        let updated = TowTruck {
                            id: t.id,
                            driver_id: t.driver_id,
                            node_id: t.node_id,
                            area_id: t.area_id,
                            status: STATUS_BUSY.to_owned(),
                        };
                        self.tow_trucks.set(k, updated);
                        Ok(())
                    },
                    None => Err(AppError::NotFound),
                }
            },
        }
    }

    /// Commits a dispatch: writes the completion record, marks the order
    /// dispatched, marks the truck busy, in that order, and stops at the
    /// first write that fails. Nothing is undone.
    pub fn create_dispatcher_order(
        &mut self,
        order_id: i32,
        dispatcher_id: i32,
        tow_truck_id: i32,
        order_time: i64,
    ) -> (outcome: Result<(), AppError>)
        ensures
            committed(
                *old(self),
                *final(self),
                DispatchRequest { order_id, dispatcher_id, tow_truck_id, order_time },
                outcome,
            ),
    {
        let request = DispatchRequest { order_id, dispatcher_id, tow_truck_id, order_time };
        let ghost before = *self;
        let mut stage = first_stage();
        loop
            invariant
                request == (DispatchRequest { order_id, dispatcher_id, tow_truck_id, order_time }),
                before == *old(self),
                reached(before, *self, request, stage),
            decreases writes_left(stage),
        {
            let outcome = self.perform(effect_for(&request, stage));
            match advance(stage, outcome) {
                DispatchNext::Continue(next) => {
                    stage = next;
                },
                DispatchNext::Done(result) => {
                    return result;
                },
            }
        }
    }
}

/// Committing the same dispatch twice is not refused: the second commit
/// ends as the first did, and the ledger then holds the completion record
/// twice.
pub proof fn lemma_commit_twice(
    start: DispatchLedger,
    once: DispatchLedger,
    twice: DispatchLedger,
    request: DispatchRequest,
    first: Result<(), AppError>,
    second: Result<(), AppError>,
)
    requires
        committed(start, once, request, first),
        committed(once, twice, request, second),
    ensures
        second == first,
        twice.completed_orders@ == start.completed_orders@.push(
            CompletionRecord {
                order_id: request.order_id,
                tow_truck_id: request.tow_truck_id,
                completed_time: request.order_time,
            },
        ).push(
            CompletionRecord {
                order_id: request.order_id,
                tow_truck_id: request.tow_truck_id,
                completed_time: request.order_time,
            },
        ),
{
    assert(order_ids(once.orders@) =~= order_ids(start.orders@));
    assert(truck_ids(once.tow_trucks@) =~= truck_ids(start.tow_trucks@));
}

/// A dispatch of an order and a truck that the ledger holds succeeds, and
/// leaves the order dispatched to that truck, the truck busy, and one more
/// completion record, for that order and truck.
pub proof fn lemma_commit_known(
    before: DispatchLedger,
    after: DispatchLedger,
    request: DispatchRequest,
    outcome: Result<(), AppError>,
    k: int,
    m: int,
)
    requires
        committed(before, after, request, outcome),
        is_first_at(order_ids(before.orders@), request.order_id, k),
        is_first_at(truck_ids(before.tow_trucks@), request.tow_truck_id, m),
    ensures
        outcome is Ok,
        after.orders@[k].status@ == STATUS_DISPATCHED@,
        after.orders@[k].dispatcher_id == Some(request.dispatcher_id),
        after.orders@[k].tow_truck_id == Some(request.tow_truck_id),
        after.tow_trucks@[m].status@ == STATUS_BUSY@,
        after.completed_orders@.len() == before.completed_orders@.len() + 1,
        after.completed_orders@.last().order_id == request.order_id,
        after.completed_orders@.last().tow_truck_id == request.tow_truck_id,
{
    lemma_position(order_ids(before.orders@), request.order_id, k);
    lemma_position(truck_ids(before.tow_trucks@), request.tow_truck_id, m);
}

/// The first position of an id is one position.
pub proof fn lemma_position(ids: Seq<i32>, id: i32, k: int)
    requires
        is_first_at(ids, id, k),
    ensures
        position(ids, id) == Some(k),
{
    let c = choose|c: int| is_first_at(ids, id, c);
    if c < k {
        assert(ids[c] == id);
    } else if k < c {
        assert(ids[k] == id);
    }
}

} // verus!
