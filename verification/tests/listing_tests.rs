use tow_dispatch::listing::{
    client_ids, dispatcher_ids, names_from_lookups, order_names, tow_truck_ids_of, Dispatcher,
    OrderNames, User,
};
use tow_dispatch::model::{Order, TowTruck};

fn order(id: i32, client_id: i32, dispatcher_id: Option<i32>, tow_truck_id: Option<i32>) -> Order {
    Order {
        id,
        client_id,
        dispatcher_id,
        tow_truck_id,
        status: "pending".to_string(),
        node_id: 1,
        area_id: 1,
        order_time: 0,
        completed_time: None,
    }
}

fn user(id: i32, name: &str) -> User {
    User { id, username: name.to_string() }
}

fn truck(id: i32, driver_id: i32) -> TowTruck {
    TowTruck { id, driver_id, node_id: 1, area_id: 1, status: "busy".to_string() }
}

#[test]
fn ids_are_collected_in_order() {
    let orders = vec![
        order(1, 10, None, Some(7)),
        order(2, 11, Some(3), None),
        order(3, 10, Some(4), Some(8)),
    ];
    assert_eq!(client_ids(&orders), vec![10, 11, 10]);
    assert_eq!(dispatcher_ids(&orders), vec![3, 4]);
    assert_eq!(tow_truck_ids_of(&orders), vec![7, 8]);
    assert_eq!(client_ids(&Vec::new()), Vec::<i32>::new());
}

#[test]
fn names_are_looked_up_per_order() {
    let orders = vec![order(1, 10, Some(20), Some(7)), order(2, 11, None, None)];
    let users = vec![user(10, "ann"), user(11, "bob"), user(20, "dee"), user(30, "eve")];
    let dispatchers = vec![Dispatcher { id: 5, user_id: 20, area_id: 1 }];
    let trucks = vec![truck(7, 30)];
    let names = order_names(&orders, &users, &dispatchers, &trucks);
    assert_eq!(
        names,
        vec![
            OrderNames {
                client_username: Some("ann".to_string()),
                dispatcher_user_id: Some(20),
                dispatcher_username: Some("dee".to_string()),
                driver_user_id: Some(30),
                driver_username: Some("eve".to_string()),
            },
            OrderNames {
                client_username: Some("bob".to_string()),
                dispatcher_user_id: None,
                dispatcher_username: None,
                driver_user_id: None,
                driver_username: None,
            },
        ]
    );
}

#[test]
fn missing_lookups_leave_names_empty() {
    let orders = vec![order(1, 10, Some(20), Some(7)), order(2, 12, Some(21), Some(9))];
    let users = vec![user(10, "ann")];
    let dispatchers = vec![Dispatcher { id: 5, user_id: 20, area_id: 1 }];
    let trucks = vec![truck(7, 30)];
    let names = order_names(&orders, &users, &dispatchers, &trucks);
    assert_eq!(names[0].client_username, Some("ann".to_string()));
    assert_eq!(names[0].dispatcher_user_id, Some(20));
    assert_eq!(names[0].dispatcher_username, None);
    assert_eq!(names[0].driver_user_id, Some(30));
    assert_eq!(names[0].driver_username, None);
    assert_eq!(names[1].client_username, None);
    assert_eq!(names[1].dispatcher_user_id, None);
    assert_eq!(names[1].driver_user_id, None);
}

#[test]
fn later_entries_with_the_same_id_win() {
    let orders = vec![order(1, 10, None, Some(7))];
    let users = vec![user(10, "old"), user(10, "new"), user(31, "driver")];
    let trucks = vec![truck(7, 30), truck(7, 31)];
    let names = order_names(&orders, &users, &Vec::new(), &trucks);
    assert_eq!(names[0].client_username, Some("new".to_string()));
    assert_eq!(names[0].driver_user_id, Some(31));
    assert_eq!(names[0].driver_username, Some("driver".to_string()));
}

#[test]
fn names_from_single_lookups() {
    let names = names_from_lookups(
        Some(user(10, "ann")),
        Some(Dispatcher { id: 5, user_id: 20, area_id: 1 }),
        Some(user(20, "dee")),
        None,
        None,
    );
    assert_eq!(names.client_username, Some("ann".to_string()));
    assert_eq!(names.dispatcher_user_id, Some(20));
    assert_eq!(names.dispatcher_username, Some("dee".to_string()));
    assert_eq!(names.driver_user_id, None);
    assert_eq!(names.driver_username, None);
    let names = names_from_lookups(
        Some(user(10, "ann")),
        None,
        None,
        Some(truck(7, 30)),
        Some(user(30, "eve")),
    );
    assert_eq!(names.driver_user_id, Some(30));
    assert_eq!(names.driver_username, Some("eve".to_string()));
    assert_eq!(names.dispatcher_user_id, None);
    assert_eq!(names.dispatcher_username, None);
}

#[test]
fn lookups_that_found_nothing_leave_names_empty() {
    let names = names_from_lookups(
        None,
        Some(Dispatcher { id: 5, user_id: 20, area_id: 1 }),
        None,
        Some(truck(7, 30)),
        None,
    );
    assert_eq!(
        names,
        OrderNames {
            client_username: None,
            dispatcher_user_id: Some(20),
            dispatcher_username: None,
            driver_user_id: Some(30),
            driver_username: None,
        }
    );
    // a user without its dispatcher or truck is not shown
    let names = names_from_lookups(None, None, Some(user(20, "dee")), None, Some(user(30, "eve")));
    assert_eq!(
        names,
        OrderNames {
            client_username: None,
            dispatcher_user_id: None,
            dispatcher_username: None,
            driver_user_id: None,
            driver_username: None,
        }
    );
}
