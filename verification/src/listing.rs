//! The people behind an order: which users a list of orders refers to, and
//! the names to show with each order.

use vstd::prelude::*;
use std::collections::HashMap;
use crate::model::{Order, TowTruck};

verus! {

broadcast use vstd::std_specs::hash::group_hash_axioms;

/// A user, as far as a list of orders shows one.
#[derive(Clone, Debug, PartialEq, Eq)]
pub struct User {
    pub id: i32,
    pub username: String,
}

/// A dispatcher and the user that it is.
#[derive(Clone, Copy, Debug, PartialEq, Eq, Structural)]
pub struct Dispatcher {
    pub id: i32,
    pub user_id: i32,
    pub area_id: i32,
}

/// The names to show with one order.
#[derive(Clone, Debug, PartialEq, Eq)]
pub struct OrderNames {
    pub client_username: Option<String>,
    pub dispatcher_user_id: Option<i32>,
    pub dispatcher_username: Option<String>,
    pub driver_user_id: Option<i32>,
    pub driver_username: Option<String>,
}

/// The ids that are present, in their order.
pub open spec fn present(ids: Seq<Option<i32>>) -> Seq<i32>
    decreases ids.len(),
{
    if ids.len() == 0 {
        Seq::empty()
    } else {
        match ids.last() {
            Some(id) => present(ids.drop_last()).push(id),
            None => present(ids.drop_last()),
        }
    }
}

/// For each key its last position in `keys`.
pub open spec fn index_by(keys: Seq<i32>) -> Map<i32, int>
    decreases keys.len(),
{
    if keys.len() == 0 {
        Map::empty()
    } else {
        index_by(keys.drop_last()).insert(keys.last(), keys.len() - 1)
    }
}

/// `index_by` holds exactly the keys that occur, each with a position at
/// which it stands and after which it does not occur again.
pub proof fn lemma_index_by(keys: Seq<i32>)
    ensures
        forall|k: i32| #[trigger] index_by(keys).contains_key(k) <==> keys.contains(k),
        forall|k: i32| #[trigger]
            index_by(keys).contains_key(k) ==> {
                &&& 0 <= index_by(keys)[k] < keys.len()
                &&& keys[index_by(keys)[k]] == k
                &&& forall|j: int| index_by(keys)[k] < j < keys.len() ==> keys[j] != k
            },
    decreases keys.len(),
{
    if keys.len() > 0 {
        let front = keys.drop_last();
        lemma_index_by(front);
        assert forall|k: i32| #[trigger] index_by(keys).contains_key(k) <==> keys.contains(k) by {
            let in_front = index_by(front).contains_key(k);
            if keys.contains(k) {
                let j = choose|j: int| 0 <= j < keys.len() && keys[j] == k;
                if j < keys.len() - 1 {
                    assert(front[j] == k);
                    assert(front.contains(k));
                    assert(in_front);
                } else {
                    assert(k == keys.last());
                }
            }
            if index_by(keys).contains_key(k) {
                if k == keys.last() {
                    assert(keys[keys.len() - 1] == k);
                } else {
                    assert(in_front);
                    assert(front.contains(k));
                    let j = choose|j: int| 0 <= j < front.len() && front[j] == k;
                    assert(keys[j] == k);
                }
            }
        }
        assert forall|k: i32| #[trigger] index_by(keys).contains_key(k) implies {
            &&& 0 <= index_by(keys)[k] < keys.len()
            &&& keys[index_by(keys)[k]] == k
            &&& forall|j: int| index_by(keys)[k] < j < keys.len() ==> keys[j] != k
        } by {
            if k != keys.last() {
                assert(index_by(front).contains_key(k));
                assert(front[index_by(front)[k]] == k);
                assert forall|j: int| index_by(keys)[k] < j < keys.len() implies keys[j] != k by {
                    if j < keys.len() - 1 {
                        assert(front[j] == keys[j]);
                    }
                }
            }
        }
    }
}

/// The ids of the users, in their order.
pub open spec fn user_ids(users: Seq<User>) -> Seq<i32> {
    Seq::new(users.len(), |i: int| users[i].id)
}

/// The users that the dispatchers are, in the dispatchers' order.
pub open spec fn dispatcher_user_ids(dispatchers: Seq<Dispatcher>) -> Seq<i32> {
    Seq::new(dispatchers.len(), |i: int| dispatchers[i].user_id)
}

/// The ids of the trucks, in their order.
pub open spec fn tow_truck_ids(tow_trucks: Seq<TowTruck>) -> Seq<i32> {
    Seq::new(tow_trucks.len(), |i: int| tow_trucks[i].id)
}

/// The name of the last of `users` with the id `id`.
pub open spec fn username_of(users: Seq<User>, id: i32) -> Option<String> {
    let at = index_by(user_ids(users));
    if at.contains_key(id) && 0 <= at[id] < users.len() {
        Some(users[at[id]].username)
    } else {
        None
    }
}

/// The names to show with `order`. The client's name is that of the user
/// with the client's id. The dispatcher is the last one whose user id is the
/// order's dispatcher reference, the driver is that of the last truck with
/// the order's truck reference; their names too are looked up among `users`.
pub open spec fn names_of(
    order: Order,
    users: Seq<User>,
    dispatchers: Seq<Dispatcher>,
    tow_trucks: Seq<TowTruck>,
) -> OrderNames {
    let by_user = index_by(dispatcher_user_ids(dispatchers));
    let by_truck = index_by(tow_truck_ids(tow_trucks));
    let dispatcher_user_id = match order.dispatcher_id {
        Some(d) => if by_user.contains_key(d) && 0 <= by_user[d] < dispatchers.len() {
            Some(dispatchers[by_user[d]].user_id)
        } else {
            None
        },
        None => None,
    };
    let driver_user_id = match order.tow_truck_id {
        Some(t) => if by_truck.contains_key(t) && 0 <= by_truck[t] < tow_trucks.len() {
            Some(tow_trucks[by_truck[t]].driver_id)
        } else {
            None
        },
        None => None,
    };
    OrderNames {
        client_username: username_of(users, order.client_id),
        dispatcher_user_id,
        dispatcher_username: match dispatcher_user_id {
            Some(u) => username_of(users, u),
            None => None,
        },
        driver_user_id,
        driver_username: match driver_user_id {
            Some(u) => username_of(users, u),
            None => None,
        },
    }
}

/// The clients of the orders, one id for each order.
pub fn client_ids(orders: &Vec<Order>) -> (ids: Vec<i32>)
    ensures
        ids@ == Seq::new(orders@.len(), |i: int| orders@[i].client_id),
{
    let mut ids: Vec<i32> = Vec::new();
    let mut i: usize = 0;
    while i < orders.len()
        invariant
            0 <= i <= orders.len(),
            ids@ == Seq::new(i as nat, |j: int| orders@[j].client_id),
        decreases orders.len() - i,
    {
        ids.push(orders[i].client_id);
        assert(ids@ =~= Seq::new((i + 1) as nat, |j: int| orders@[j].client_id));
        i += 1;
    }
    ids
}

/// The dispatchers that the orders refer to, in the orders' order.
pub fn dispatcher_ids(orders: &Vec<Order>) -> (ids: Vec<i32>)
    ensures
        ids@ == present(Seq::new(orders@.len(), |i: int| orders@[i].dispatcher_id)),
{
    let mut ids: Vec<i32> = Vec::new();
    let mut i: usize = 0;
    let ghost all = Seq::new(orders@.len(), |i: int| orders@[i].dispatcher_id);
    while i < orders.len()
        invariant
            0 <= i <= orders.len(),
            all == Seq::new(orders@.len(), |i: int| orders@[i].dispatcher_id),
            ids@ == present(all.take(i as int)),
        decreases orders.len() - i,
    {
        proof {
            let next = all.take(i + 1);
            assert(next.drop_last() =~= all.take(i as int));
            assert(next.last() == orders@[i as int].dispatcher_id);
        }
        match orders[i].dispatcher_id {
            Some(id) => {
                ids.push(id);
            },
            None => {},
        }
        i += 1;
    }
    assert(all.take(orders.len() as int) =~= all);
    ids
}

/// The trucks that the orders refer to, in the orders' order.
pub fn tow_truck_ids_of(orders: &Vec<Order>) -> (ids: Vec<i32>)
    ensures
        ids@ == present(Seq::new(orders@.len(), |i: int| orders@[i].tow_truck_id)),
{
    let mut ids: Vec<i32> = Vec::new();
    let mut i: usize = 0;
    let ghost all = Seq::new(orders@.len(), |i: int| orders@[i].tow_truck_id);
    while i < orders.len()
        invariant
            0 <= i <= orders.len(),
            all == Seq::new(orders@.len(), |i: int| orders@[i].tow_truck_id),
            ids@ == present(all.take(i as int)),
        decreases orders.len() - i,
    {
        proof {
            let next = all.take(i + 1);
            assert(next.drop_last() =~= all.take(i as int));
            assert(next.last() == orders@[i as int].tow_truck_id);
        }
        match orders[i].tow_truck_id {
            Some(id) => {
                ids.push(id);
            },
            None => {},
        }
        i += 1;
    }
    assert(all.take(orders.len() as int) =~= all);
    ids
}

/// The positions in `at` are those of `index_by(keys)`.
spec fn indexes(at: Map<i32, usize>, keys: Seq<i32>) -> bool {
    &&& forall|k: i32| #[trigger] at.contains_key(k) <==> index_by(keys).contains_key(k)
    &&& forall|k: i32| #[trigger] at.contains_key(k) ==> at[k] == index_by(keys)[k]
}

/// Files each key under its last position.
fn index_keys(keys: &Vec<i32>) -> (at: HashMap<i32, usize>)
    ensures
        indexes(at@, keys@),
{
    let mut at: HashMap<i32, usize> = HashMap::new();
    let mut i: usize = 0;
    while i < keys.len()
        invariant
            0 <= i <= keys.len(),
            indexes(at@, keys@.take(i as int)),
        decreases keys.len() - i,
    {
        proof {
            let next = keys@.take(i + 1);
            assert(next.drop_last() =~= keys@.take(i as int));
            assert(next.last() == keys@[i as int]);
        }
        at.insert(keys[i], i);
        i += 1;
    }
    assert(keys@.take(keys.len() as int) =~= keys@);
    at
}

/// The name of the user with the id `id`, by the index `at`.
fn lookup_username(users: &Vec<User>, at: &HashMap<i32, usize>, id: i32) -> (name: Option<String>)
    requires
        indexes(at@, user_ids(users@)),
    ensures
        name == username_of(users@, id),
{
    proof {
        lemma_index_by(user_ids(users@));
    }
    match at.get(&id) {
        Some(k) => Some(users[*k].username.clone()),
        None => None,
    }
}

/// The names to show with one order, from what was looked up for it. A
/// lookup that found nothing leaves its name empty. The dispatcher's user
/// counts only where the dispatcher was found, the driver only where the
/// truck was.
pub open spec fn names_of_lookups(
    client: Option<User>,
    dispatcher: Option<Dispatcher>,
    dispatcher_user: Option<User>,
    tow_truck: Option<TowTruck>,
    driver: Option<User>,
) -> OrderNames {
    OrderNames {
        client_username: match client {
            Some(user) => Some(user.username),
            None => None,
        },
        dispatcher_user_id: match dispatcher {
            Some(found) => Some(found.user_id),
            None => None,
        },
        dispatcher_username: match (dispatcher, dispatcher_user) {
            (Some(_), Some(user)) => Some(user.username),
            _ => None,
        },
        driver_user_id: match tow_truck {
            Some(found) => Some(found.driver_id),
            None => None,
        },
        driver_username: match (tow_truck, driver) {
            (Some(_), Some(user)) => Some(user.username),
            _ => None,
        },
    }
}

/// The names to show with one order, from what was looked up for it: its
/// client, its dispatcher and the dispatcher's user, its truck and the
/// truck's driver, each as far as it was found.
pub fn names_from_lookups(
    client: Option<User>,
    dispatcher: Option<Dispatcher>,
    dispatcher_user: Option<User>,
    tow_truck: Option<TowTruck>,
    driver: Option<User>,
) -> (names: OrderNames)
    ensures
        names == names_of_lookups(client, dispatcher, dispatcher_user, tow_truck, driver),
{
    let client_username = match client {
        Some(user) => Some(user.username),
        None => None,
    };
    let (dispatcher_user_id, dispatcher_username) = match dispatcher {
        Some(found) => (
            Some(found.user_id),
            match dispatcher_user {
                Some(user) => Some(user.username),
                None => None,
            },
        ),
        None => (None, None),
    };
    let (driver_user_id, driver_username) = match tow_truck {
        Some(found) => (
            Some(found.driver_id),
            match driver {
                Some(user) => Some(user.username),
                None => None,
            },
        ),
        None => (None, None),
    };
    OrderNames {
        client_username,
        dispatcher_user_id,
        dispatcher_username,
        driver_user_id,
        driver_username,
    }
}

/// The names to show with each of `orders`, looked up among the users,
/// dispatchers and trucks that were fetched for them.
pub fn order_names(
    orders: &Vec<Order>,
    users: &Vec<User>,
    dispatchers: &Vec<Dispatcher>,
    tow_trucks: &Vec<TowTruck>,
) -> (names: Vec<OrderNames>)
    ensures
        names@.len() == orders@.len(),
        forall|i: int|
            0 <= i < orders@.len() ==> #[trigger] names@[i] == names_of(
                orders@[i],
                users@,
                dispatchers@,
                tow_trucks@,
            ),
{
    let mut keys: Vec<i32> = Vec::new();
    let mut i: usize = 0;
    while i < users.len()
        invariant
            0 <= i <= users.len(),
            keys@ == user_ids(users@.take(i as int)),
        decreases users.len() - i,
    {
        keys.push(users[i].id);
        assert(keys@ =~= user_ids(users@.take(i + 1)));
        i += 1;
    }
    assert(users@.take(users.len() as int) =~= users@);
    let client_map = index_keys(&keys);

    let mut keys: Vec<i32> = Vec::new();
    let mut i: usize = 0;
    while i < dispatchers.len()
        invariant
            0 <= i <= dispatchers.len(),
            keys@ == dispatcher_user_ids(dispatchers@.take(i as int)),
        decreases dispatchers.len() - i,
    {
        keys.push(dispatchers[i].user_id);
        assert(keys@ =~= dispatcher_user_ids(dispatchers@.take(i + 1)));
        i += 1;
    }
    assert(dispatchers@.take(dispatchers.len() as int) =~= dispatchers@);
    let dispatcher_map = index_keys(&keys);

    let mut keys: Vec<i32> = Vec::new();
    let mut i: usize = 0;
    while i < tow_trucks.len()
        invariant
            0 <= i <= tow_trucks.len(),
            keys@ == tow_truck_ids(tow_trucks@.take(i as int)),
        decreases tow_trucks.len() - i,
    {
        keys.push(tow_trucks[i].id);
        assert(keys@ =~= tow_truck_ids(tow_trucks@.take(i + 1)));
        i += 1;
    }
    assert(tow_trucks@.take(tow_trucks.len() as int) =~= tow_trucks@);
    let tow_truck_map = index_keys(&keys);

    proof {
        lemma_index_by(dispatcher_user_ids(dispatchers@));
        lemma_index_by(tow_truck_ids(tow_trucks@));
    }
    let mut results: Vec<OrderNames> = Vec::new();
    let mut n: usize = 0;
    while n < orders.len()
        invariant
            0 <= n <= orders.len(),
            results@.len() == n,
            indexes(client_map@, user_ids(users@)),
            indexes(dispatcher_map@, dispatcher_user_ids(dispatchers@)),
            indexes(tow_truck_map@, tow_truck_ids(tow_trucks@)),
            forall|k: i32| #[trigger]
                index_by(dispatcher_user_ids(dispatchers@)).contains_key(k) ==> 0 <= index_by(
                    dispatcher_user_ids(dispatchers@),
                )[k] < dispatchers@.len(),
            forall|k: i32| #[trigger]
                index_by(tow_truck_ids(tow_trucks@)).contains_key(k) ==> 0 <= index_by(
                    tow_truck_ids(tow_trucks@),
                )[k] < tow_trucks@.len(),
            forall|i: int|
                0 <= i < n ==> #[trigger] results@[i] == names_of(
                    orders@[i],
                    users@,
                    dispatchers@,
                    tow_trucks@,
                ),
        decreases orders.len() - n,
    {
        let order = &orders[n];
        let client_username = lookup_username(users, &client_map, order.client_id);
        let dispatcher_user_id: Option<i32> = match order.dispatcher_id {
            Some(dispatcher_id) => match dispatcher_map.get(&dispatcher_id) {
                Some(k) => Some(dispatchers[*k].user_id),
                None => None,
            },
            None => None,
        };
        let dispatcher_username = match dispatcher_user_id {
            Some(user_id) => lookup_username(users, &client_map, user_id),
            None => None,
        };
        let driver_user_id: Option<i32> = match order.tow_truck_id {
            Some(tow_truck_id) => match tow_truck_map.get(&tow_truck_id) {
                Some(k) => Some(tow_trucks[*k].driver_id),
                None => None,
            },
            None => None,
        };
        let driver_username = match driver_user_id {
            Some(user_id) => lookup_username(users, &client_map, user_id),
            None => None,
        };
        let ghost before = results@;
        results.push(
            OrderNames {
                client_username,
                dispatcher_user_id,
                dispatcher_username,
                driver_user_id,
                driver_username,
            },
        );
        assert forall|i: int| 0 <= i < n + 1 implies #[trigger] results@[i] == names_of(
            orders@[i],
            users@,
            dispatchers@,
            tow_trucks@,
        ) by {
            if i < n {
                assert(results@[i] == before[i]);
            }
        }
        n += 1;
    }
    results
}

} // verus!
