use tow_dispatch::dispatch::{
    advance, effect_for, first_stage, DispatchEffect, DispatchNext, DispatchRequest, DispatchStage,
};
use tow_dispatch::ledger::DispatchLedger;
use tow_dispatch::model::{AppError, CompletionRecord, Order, TowTruck};

fn order(id: i32, node_id: i32) -> Order {
    Order {
        id,
        client_id: 3,
        dispatcher_id: None,
        tow_truck_id: None,
        status: "pending".to_string(),
        node_id,
        area_id: 1,
        order_time: 1_000,
        completed_time: None,
    }
}

fn truck(id: i32) -> TowTruck {
    TowTruck { id, driver_id: 8, node_id: 2, area_id: 1, status: "available".to_string() }
}

fn ledger() -> DispatchLedger {
    DispatchLedger {
        orders: vec![order(1, 10), order(2, 11)],
        tow_trucks: vec![truck(4), truck(5)],
        completed_orders: Vec::new(),
    }
}

#[test]
fn commit_dispatch_happy_path() {
    let mut l = ledger();
    assert_eq!(l.create_dispatcher_order(1, 7, 5, 2_000), Ok(()));
    assert_eq!(l.orders[0].status, "dispatched");
    assert_eq!(l.orders[0].tow_truck_id, Some(5));
    assert_eq!(l.orders[0].dispatcher_id, Some(7));
    assert_eq!(l.orders[0].node_id, 10);
    assert_eq!(l.tow_trucks[1].status, "busy");
    let matching: Vec<&CompletionRecord> =
        l.completed_orders.iter().filter(|r| r.order_id == 1 && r.tow_truck_id == 5).collect();
    assert_eq!(matching.len(), 1);
    assert_eq!(
        l.completed_orders,
        vec![CompletionRecord { order_id: 1, tow_truck_id: 5, completed_time: 2_000 }]
    );
    // the other order and truck are untouched
    assert_eq!(l.orders[1], order(2, 11));
    assert_eq!(l.tow_trucks[0], truck(4));
}

#[test]
fn commit_dispatch_twice_writes_two_records() {
    let mut l = ledger();
    assert_eq!(l.create_dispatcher_order(1, 7, 5, 2_000), Ok(()));
    assert_eq!(l.create_dispatcher_order(1, 7, 5, 2_000), Ok(()));
    let record = CompletionRecord { order_id: 1, tow_truck_id: 5, completed_time: 2_000 };
    assert_eq!(l.completed_orders, vec![record, record]);
    assert_eq!(l.orders[0].status, "dispatched");
    assert_eq!(l.tow_trucks[1].status, "busy");
}

#[test]
fn commit_dispatch_unknown_order_keeps_record_only() {
    let mut l = ledger();
    assert_eq!(l.create_dispatcher_order(99, 7, 5, 2_000), Err(AppError::NotFound));
    assert_eq!(l.completed_orders.len(), 1);
    assert_eq!(l.orders, vec![order(1, 10), order(2, 11)]);
    assert_eq!(l.tow_trucks, vec![truck(4), truck(5)]);
}

#[test]
fn commit_dispatch_unknown_truck_leaves_order_dispatched() {
    let mut l = ledger();
    assert_eq!(l.create_dispatcher_order(2, 7, 77, 2_000), Err(AppError::NotFound));
    assert_eq!(l.completed_orders.len(), 1);
    assert_eq!(l.orders[1].status, "dispatched");
    assert_eq!(l.orders[1].tow_truck_id, Some(77));
    assert_eq!(l.tow_trucks, vec![truck(4), truck(5)]);
}

#[test]
fn update_order_status_writes_any_string() {
    let mut l = ledger();
    assert_eq!(l.update_order_status(1, "completed"), Ok(()));
    assert_eq!(l.orders[0].status, "completed");
    assert_eq!(l.update_order_status(1, "pending"), Ok(()));
    assert_eq!(l.orders[0].status, "pending");
    assert_eq!(l.update_order_status(2, "no such state"), Ok(()));
    assert_eq!(l.orders[1].status, "no such state");
    assert_eq!(l.orders[1].node_id, 11);
    assert_eq!(l.update_order_status(3, "completed"), Err(AppError::NotFound));
}

#[test]
fn find_returns_first_position() {
    let mut l = ledger();
    l.orders.push(order(1, 30));
    assert_eq!(l.find_order(1), Some(0));
    assert_eq!(l.find_order(2), Some(1));
    assert_eq!(l.find_order(5), None);
    assert_eq!(l.find_tow_truck(5), Some(1));
    assert_eq!(l.find_tow_truck(1), None);
}

#[test]
fn perform_single_effects() {
    let mut l = ledger();
    assert_eq!(
        l.perform(DispatchEffect::CreateCompletedOrder { order_id: 9, tow_truck_id: 9, completed_time: 5 }),
        Ok(())
    );
    assert_eq!(l.completed_orders.len(), 1);
    assert_eq!(l.perform(DispatchEffect::UpdateTruckBusy { tow_truck_id: 4 }), Ok(()));
    assert_eq!(l.tow_trucks[0].status, "busy");
    assert_eq!(l.tow_trucks[0].driver_id, 8);
    assert_eq!(l.perform(DispatchEffect::UpdateTruckBusy { tow_truck_id: 40 }), Err(AppError::NotFound));
    assert_eq!(
        l.perform(DispatchEffect::UpdateOrderDispatched { order_id: 40, dispatcher_id: 1, tow_truck_id: 4 }),
        Err(AppError::NotFound)
    );
}

#[test]
fn stages_follow_in_order() {
    let request = DispatchRequest { order_id: 1, dispatcher_id: 7, tow_truck_id: 5, order_time: 2_000 };
    let s1 = first_stage();
    assert_eq!(s1, DispatchStage::CreatingRecord);
    assert_eq!(
        effect_for(&request, s1),
        DispatchEffect::CreateCompletedOrder { order_id: 1, tow_truck_id: 5, completed_time: 2_000 }
    );
    assert_eq!(advance(s1, Ok(())), DispatchNext::Continue(DispatchStage::MarkingOrder));
    assert_eq!(
        effect_for(&request, DispatchStage::MarkingOrder),
        DispatchEffect::UpdateOrderDispatched { order_id: 1, dispatcher_id: 7, tow_truck_id: 5 }
    );
    assert_eq!(
        advance(DispatchStage::MarkingOrder, Ok(())),
        DispatchNext::Continue(DispatchStage::MarkingTruck)
    );
    assert_eq!(
        effect_for(&request, DispatchStage::MarkingTruck),
        DispatchEffect::UpdateTruckBusy { tow_truck_id: 5 }
    );
    assert_eq!(advance(DispatchStage::MarkingTruck, Ok(())), DispatchNext::Done(Ok(())));
}

#[test]
fn failed_record_hands_on_the_store_error() {
    assert_eq!(
        advance(DispatchStage::CreatingRecord, Err(AppError::Internal)),
        DispatchNext::Done(Err(AppError::Internal))
    );
    assert_eq!(
        advance(DispatchStage::CreatingRecord, Err(AppError::NotFound)),
        DispatchNext::Done(Err(AppError::NotFound))
    );
    assert_eq!(
        advance(DispatchStage::CreatingRecord, Err(AppError::BadRequest)),
        DispatchNext::Done(Err(AppError::BadRequest))
    );
}

#[test]
fn every_stage_hands_on_every_error() {
    let stages =
        [DispatchStage::CreatingRecord, DispatchStage::MarkingOrder, DispatchStage::MarkingTruck];
    let errors = [AppError::NotFound, AppError::BadRequest, AppError::Internal];
    for stage in stages {
        for error in errors {
            assert_eq!(advance(stage, Err(error)), DispatchNext::Done(Err(error)));
        }
    }
}

#[test]
fn later_failures_pass_through() {
    assert_eq!(
        advance(DispatchStage::MarkingOrder, Err(AppError::Internal)),
        DispatchNext::Done(Err(AppError::Internal))
    );
    assert_eq!(
        advance(DispatchStage::MarkingTruck, Err(AppError::NotFound)),
        DispatchNext::Done(Err(AppError::NotFound))
    );
}
