use std::collections::{BTreeMap, BTreeSet};

use a1_switch::protocol::Lsa;
use a1_switch::routing::{desired_routes, distances_from, mutual_graph, DesiredRoute, Graph};

fn lsa(origin: u32, neighbors: &[u32], customers: &[u32]) -> Lsa {
    Lsa::new(origin, 1, neighbors.to_vec(), customers.to_vec())
}

#[test]
fn graph_requires_both_endpoint_claims() {
    let mut db = BTreeMap::new();
    db.insert(1, lsa(1, &[2], &[]));
    db.insert(2, lsa(2, &[], &[]));
    assert!(!mutual_graph(&db)[&1].contains(&2));
    db.insert(2, lsa(2, &[1], &[]));
    assert!(mutual_graph(&db)[&1].contains(&2));
}

#[test]
fn line_routes_reduce_distance() {
    let customer = 0x0a00_0301;
    let mut db = BTreeMap::new();
    db.insert(10, lsa(10, &[20], &[]));
    db.insert(20, lsa(20, &[10, 30], &[]));
    db.insert(30, lsa(30, &[20], &[customer]));
    let local = BTreeMap::new();

    let r10 = desired_routes(10, &[(20, 7)], &local, &db);
    let r20 = desired_routes(20, &[(10, 1), (30, 2)], &local, &db);
    assert_eq!(r10[&customer].next_hop, Some(20));
    assert_eq!(r10[&customer].port, 7);
    assert_eq!(r20[&customer].next_hop, Some(30));
}

#[test]
fn equal_paths_choose_lowest_neighbor_then_port() {
    let customer = 0x0a00_0401;
    let mut db = BTreeMap::new();
    db.insert(1, lsa(1, &[2, 3], &[]));
    db.insert(2, lsa(2, &[1, 4], &[]));
    db.insert(3, lsa(3, &[1, 4], &[]));
    db.insert(4, lsa(4, &[2, 3], &[customer]));
    let routes = desired_routes(1, &[(3, 9), (2, 8)], &BTreeMap::new(), &db);
    assert_eq!(routes[&customer].next_hop, Some(2));
    assert_eq!(routes[&customer].port, 8);
}

#[test]
fn local_customer_uses_local_port() {
    let customer = 0x0a00_0101;
    let mut db = BTreeMap::new();
    db.insert(7, lsa(7, &[], &[customer]));
    let local = BTreeMap::from([(customer, 100)]);
    let routes = desired_routes(7, &[], &local, &db);
    assert_eq!(
        routes[&customer],
        DesiredRoute {
            port: 100,
            next_hop: None,
        }
    );
}

#[test]
fn mutual_graph_is_symmetric_and_keeps_every_origin() {
    let mut db = BTreeMap::new();
    db.insert(1, lsa(1, &[2, 3], &[]));
    db.insert(2, lsa(2, &[1], &[]));
    db.insert(3, lsa(3, &[], &[]));
    db.insert(4, lsa(4, &[1], &[]));
    let graph = mutual_graph(&db);
    assert_eq!(graph.keys().copied().collect::<Vec<_>>(), vec![1, 2, 3, 4]);
    assert_eq!(graph[&1], BTreeSet::from([2]));
    assert_eq!(graph[&2], BTreeSet::from([1]));
    assert!(graph[&3].is_empty());
    assert!(graph[&4].is_empty());
}

#[test]
fn bfs_distances_are_hop_counts() {
    let mut graph: Graph = BTreeMap::new();
    graph.insert(1, BTreeSet::from([2, 3]));
    graph.insert(2, BTreeSet::from([1, 4]));
    graph.insert(3, BTreeSet::from([1]));
    graph.insert(4, BTreeSet::from([2, 5]));
    graph.insert(5, BTreeSet::from([4]));
    graph.insert(6, BTreeSet::new());
    let d = distances_from(1, &graph);
    assert_eq!(d, BTreeMap::from([(1, 0), (2, 1), (3, 1), (4, 2), (5, 3)]));
    let from_missing = distances_from(9, &graph);
    assert_eq!(from_missing, BTreeMap::from([(9, 0)]));
}

#[test]
fn conflicting_customer_claim_goes_to_lowest_origin() {
    let customer = 0x0a00_0505;
    let mut db = BTreeMap::new();
    db.insert(5, lsa(5, &[6], &[customer]));
    db.insert(6, lsa(6, &[5], &[customer]));
    let at_six = desired_routes(6, &[(5, 3)], &BTreeMap::new(), &db);
    assert_eq!(
        at_six[&customer],
        DesiredRoute {
            port: 3,
            next_hop: Some(5),
        }
    );
    let local = BTreeMap::from([(customer, 1)]);
    let at_five = desired_routes(5, &[(6, 2)], &local, &db);
    assert_eq!(
        at_five[&customer],
        DesiredRoute {
            port: 1,
            next_hop: None,
        }
    );
}

#[test]
fn unreachable_or_unlisted_owner_gets_no_route() {
    let customer = 0x0a00_0606;
    let mut db = BTreeMap::new();
    db.insert(1, lsa(1, &[2], &[]));
    db.insert(2, lsa(2, &[], &[customer]));
    assert!(desired_routes(1, &[(2, 4)], &BTreeMap::new(), &db).is_empty());
    db.insert(2, lsa(2, &[1], &[customer]));
    assert!(desired_routes(1, &[], &BTreeMap::new(), &db).is_empty());
    assert_eq!(desired_routes(1, &[(2, 4)], &BTreeMap::new(), &db).len(), 1);
    // the owner itself needs the customer in its local table
    assert!(desired_routes(2, &[(1, 9)], &BTreeMap::new(), &db).is_empty());
}

#[test]
fn same_neighbor_on_two_ports_uses_lower_port() {
    let customer = 0x0a00_0707;
    let mut db = BTreeMap::new();
    db.insert(1, lsa(1, &[2], &[]));
    db.insert(2, lsa(2, &[1], &[customer]));
    let routes = desired_routes(1, &[(2, 9), (2, 4)], &BTreeMap::new(), &db);
    assert_eq!(routes[&customer].port, 4);
}

#[test]
fn neighbor_list_order_does_not_change_routes() {
    let customer = 0x0a00_0401;
    let mut db = BTreeMap::new();
    db.insert(1, lsa(1, &[2, 3], &[]));
    db.insert(2, lsa(2, &[1, 4], &[]));
    db.insert(3, lsa(3, &[1, 4], &[]));
    db.insert(4, lsa(4, &[2, 3], &[customer]));
    let local = BTreeMap::new();
    let a = desired_routes(1, &[(3, 9), (2, 8), (2, 5)], &local, &db);
    let b = desired_routes(1, &[(2, 5), (3, 9), (2, 8)], &local, &db);
    let c = desired_routes(1, &[(2, 8), (2, 5), (3, 9)], &local, &db);
    assert_eq!(a, b);
    assert_eq!(a, c);
    assert_eq!(
        a[&customer],
        DesiredRoute {
            port: 5,
            next_hop: Some(2)
        }
    );
}
