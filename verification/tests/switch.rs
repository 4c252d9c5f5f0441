use std::collections::BTreeMap;

use a1_switch::events::{PuntEvent, PuntReason, TimerEvent};
use a1_switch::protocol::{encode_hello, encode_lsa, Hello, Lsa};
use a1_switch::routing::DesiredRoute;
use a1_switch::switch::{
    A1Switch, Action, ActionBatch, InstalledRoute, PortRole, ACTION_BUDGET_BYTES, CONTROL_DST,
    CONTROL_PROTO, CONTROL_REASON, DELETE_ACTION_ESTIMATE, HELLO_INTERVAL_NS,
    INSTALL_ACTION_ESTIMATE, NEIGHBOR_DEAD_NS, PORT_CLASSIFY_NS, T_ROUTE,
};

fn control_punt(now_ns: u64, ingress_port: u16, payload: Vec<u8>) -> PuntEvent {
    PuntEvent {
        now_ns,
        ingress_port,
        ip_src: 0,
        ip_proto: CONTROL_PROTO,
        reason: PuntReason::Custom(CONTROL_REASON),
        payload,
    }
}

fn route_miss(now_ns: u64, ingress_port: u16, ip_src: u32) -> PuntEvent {
    PuntEvent {
        now_ns,
        ingress_port,
        ip_src,
        ip_proto: 17,
        reason: PuntReason::NoRoute,
        payload: Vec::new(),
    }
}

fn inject_payload(action: &Action) -> (u16, Vec<u8>) {
    match action {
        Action::InjectPacket {
            port,
            src_ip,
            dst_ip,
            ip_proto,
            ttl,
            payload,
        } => {
            assert_eq!(*dst_ip, CONTROL_DST);
            assert_eq!(*ip_proto, CONTROL_PROTO);
            assert_eq!(*ttl, 1);
            assert_eq!(*src_ip & 0xffff_0000, 0xa9fe_0000);
            (*port, payload.clone())
        }
        other => panic!("expected a control packet, got {:?}", other),
    }
}

fn estimate(action: &Action) -> usize {
    match action {
        Action::InjectPacket { payload, .. } => 48 + payload.len(),
        Action::InstallTableEntry { .. } => 64,
        Action::DeleteTableEntry { .. } => 32,
        Action::ScheduleTimer { .. } => 24,
    }
}

#[test]
fn customer_waits_for_quiet_classification_period() {
    let mut program = A1Switch::new(1, vec![7]);
    let mut batch = ActionBatch::new(ACTION_BUDGET_BYTES);
    program.handle_customer_punt(10, 7, 0x0a00_0101, &mut batch);
    assert!(!program.classify_customer_ports(10 + PORT_CLASSIFY_NS - 1));
    assert!(program.classify_customer_ports(10 + PORT_CLASSIFY_NS));
    assert_eq!(program.local_customers.get(&0x0a00_0101), Some(&7));
}

#[test]
fn stale_or_duplicate_hello_cannot_refresh_liveness() {
    let mut program = A1Switch::new(1, vec![3]);
    let mut batch = ActionBatch::new(ACTION_BUDGET_BYTES);
    program.handle_hello(
        100,
        3,
        Hello {
            sender: 2,
            sequence: 10,
        },
        &mut batch,
    );
    program.handle_hello(
        150,
        3,
        Hello {
            sender: 2,
            sequence: 10,
        },
        &mut batch,
    );
    program.handle_hello(
        200,
        3,
        Hello {
            sender: 2,
            sequence: 9,
        },
        &mut batch,
    );
    assert_eq!(program.ports[&3].last_hello_ns, Some(100));
}

#[test]
fn timeout_withdraws_neighbor_and_fresh_hello_recovers_it() {
    let mut program = A1Switch::new(1, vec![3]);
    let mut batch = ActionBatch::new(ACTION_BUDGET_BYTES);
    program.handle_hello(
        0,
        3,
        Hello {
            sender: 2,
            sequence: 1,
        },
        &mut batch,
    );
    assert_eq!(program.lsdb[&1].neighbors, vec![2]);
    assert!(program.expire_neighbors(NEIGHBOR_DEAD_NS - 1).is_empty());

    assert_eq!(program.expire_neighbors(NEIGHBOR_DEAD_NS), vec![3]);
    let _ = program.refresh_local_lsa(NEIGHBOR_DEAD_NS, &mut batch);
    assert!(program.lsdb[&1].neighbors.is_empty());

    program.handle_hello(
        NEIGHBOR_DEAD_NS + 1,
        3,
        Hello {
            sender: 2,
            sequence: 2,
        },
        &mut batch,
    );
    assert_eq!(program.lsdb[&1].neighbors, vec![2]);
    assert!(matches!(
        program.ports[&3].role,
        PortRole::Switch {
            neighbor_id: 2,
            live: true
        }
    ));
}

#[test]
fn stale_and_duplicate_lsas_cannot_replace_newer_state() {
    let mut program = A1Switch::new(1, vec![3]);
    let mut batch = ActionBatch::new(ACTION_BUDGET_BYTES);
    program.handle_hello(
        0,
        3,
        Hello {
            sender: 2,
            sequence: 1,
        },
        &mut batch,
    );

    let original_customer = 0x0a00_0901;
    program.handle_lsa(
        1,
        3,
        Lsa::new(9, 7, vec![2], vec![original_customer]),
        &mut batch,
    );
    program.handle_lsa(2, 3, Lsa::new(9, 7, vec![], vec![0x0a00_0902]), &mut batch);
    program.handle_lsa(3, 3, Lsa::new(9, 6, vec![], vec![0x0a00_0903]), &mut batch);
    assert_eq!(program.lsdb[&9].sequence, 7);
    assert_eq!(program.lsdb[&9].customers, vec![original_customer]);

    program.handle_lsa(4, 3, Lsa::new(9, 8, vec![], vec![]), &mut batch);
    assert_eq!(program.lsdb[&9].sequence, 8);
    assert!(program.lsdb[&9].customers.is_empty());
}

#[test]
fn route_diff_does_not_reinstall_unchanged_route() {
    let mut program = A1Switch::new(1, vec![7]);
    let desired = BTreeMap::from([(
        0x0a00_0101,
        DesiredRoute {
            port: 7,
            next_hop: None,
        },
    )]);
    let mut first = ActionBatch::new(ACTION_BUDGET_BYTES);
    assert!(program.apply_route_diff(&desired, &mut first));
    assert_eq!(first.actions.len(), 1);

    let mut second = ActionBatch::new(ACTION_BUDGET_BYTES);
    assert!(program.apply_route_diff(&desired, &mut second));
    assert!(second.actions.is_empty());
}

#[test]
fn changed_route_is_deleted_before_its_replacement_is_installed() {
    let customer = 0x0a00_0101;
    let mut program = A1Switch::new(1, vec![7, 8]);
    let mut first = ActionBatch::new(ACTION_BUDGET_BYTES);
    assert!(program.apply_route_diff(
        &BTreeMap::from([(
            customer,
            DesiredRoute {
                port: 7,
                next_hop: Some(2),
            },
        )]),
        &mut first,
    ));

    let mut changed = ActionBatch::new(ACTION_BUDGET_BYTES);
    assert!(program.apply_route_diff(
        &BTreeMap::from([(
            customer,
            DesiredRoute {
                port: 8,
                next_hop: Some(3),
            },
        )]),
        &mut changed,
    ));
    assert!(matches!(
        changed.actions.as_slice(),
        [
            Action::DeleteTableEntry { .. },
            Action::InstallTableEntry { .. }
        ]
    ));
    assert_eq!(program.installed_routes[&customer].port, 8);
}

#[test]
fn control_source_keeps_low_switch_bits() {
    let program = A1Switch::new(0x0012_3456, vec![1]);
    assert_eq!(program.control_source(), 0xa9fe_3456);
}

#[test]
fn try_push_refuses_what_does_not_fit() {
    let mut batch = ActionBatch::new(100);
    assert!(batch.try_push(
        Action::DeleteTableEntry {
            table: T_ROUTE,
            entry_id: 1
        },
        DELETE_ACTION_ESTIMATE
    ));
    assert!(batch.try_push(
        Action::InstallTableEntry {
            table: T_ROUTE,
            entry_id: 2,
            key: 2,
            prefix_len: 32,
            port: 1
        },
        INSTALL_ACTION_ESTIMATE
    ));
    assert!(!batch.try_push(
        Action::DeleteTableEntry {
            table: T_ROUTE,
            entry_id: 3
        },
        DELETE_ACTION_ESTIMATE
    ));
    assert_eq!(batch.actions.len(), 2);
    assert_eq!(batch.estimated_bytes, 96);
    assert!(batch.can_fit(4));
    assert!(!batch.can_fit(5));
    assert!(!batch.can_fit(usize::MAX));
    assert!(batch.has_work());
}

#[test]
fn hello_punt_binds_port_and_announces_new_neighbor() {
    let mut program = A1Switch::new(1, vec![3]);
    let actions = program.on_punt(control_punt(10, 3, encode_hello(2, 1)));
    assert_eq!(
        program.ports[&3].role,
        PortRole::Switch {
            neighbor_id: 2,
            live: true
        }
    );
    assert_eq!(program.ports[&3].last_hello_ns, Some(10));
    assert_eq!(program.ports[&3].last_hello_sequence, Some(1));
    assert_eq!(program.local_lsa_sequence, 1);
    assert_eq!(program.lsdb[&1].neighbors, vec![2]);
    assert!(program.routing_dirty);
    assert_eq!(program.last_routing_change_ns, 10);

    let own = encode_lsa(&Lsa::new(1, 1, vec![2], vec![])).unwrap();
    assert_eq!(actions.len(), 3);
    assert_eq!(inject_payload(&actions[0]), (3, own.clone()));
    assert_eq!(inject_payload(&actions[1]), (3, encode_hello(1, 0)));
    assert_eq!(inject_payload(&actions[2]), (3, own));
}

#[test]
fn control_punt_needs_protocol_reason_and_valid_payload() {
    let mut program = A1Switch::new(1, vec![3]);
    let mut wrong_reason = control_punt(10, 3, encode_hello(2, 1));
    wrong_reason.reason = PuntReason::Custom(CONTROL_REASON + 1);
    assert!(program.on_punt(wrong_reason).is_empty());

    let mut wrong_proto = control_punt(10, 3, encode_hello(2, 1));
    wrong_proto.ip_proto = 6;
    assert!(program.on_punt(wrong_proto).is_empty());

    let mut other = control_punt(10, 3, encode_hello(2, 1));
    other.reason = PuntReason::Other;
    assert!(program.on_punt(other).is_empty());

    let mut truncated = encode_hello(2, 1);
    truncated.pop();
    assert!(program.on_punt(control_punt(10, 3, truncated)).is_empty());

    assert_eq!(program.on_punt(control_punt(10, 4, encode_hello(2, 1))).len(), 0);
    assert_eq!(program.on_punt(control_punt(10, 3, encode_hello(1, 1))).len(), 0);
    assert_eq!(program.ports[&3].role, PortRole::Unknown);
    assert_eq!(program.local_lsa_sequence, 0);
}

#[test]
fn route_miss_collects_candidates_until_classified() {
    let customer = 0x0a00_0101;
    let mut program = A1Switch::new(1, vec![7]);
    assert!(program.on_punt(route_miss(5, 7, customer)).is_empty());
    assert!(program.on_punt(route_miss(20, 7, 0x0a00_0102)).is_empty());
    assert!(program.on_punt(route_miss(30, 7, 0)).is_empty());
    assert_eq!(program.ports[&7].first_data_ns, Some(5));
    assert!(program.ports[&7].candidate_customers.contains(&customer));
    assert!(program.ports[&7].candidate_customers.contains(&0x0a00_0102));
    assert_eq!(program.ports[&7].candidate_customers.len(), 2);
    assert!(program.local_customers.is_empty());
}

#[test]
fn confirmed_customer_port_learns_new_source() {
    let first = 0x0a00_0101;
    let second = 0x0a00_0102;
    let mut program = A1Switch::new(1, vec![7]);
    program.on_punt(route_miss(0, 7, first));
    assert!(program.classify_customer_ports(PORT_CLASSIFY_NS));
    assert_eq!(program.ports[&7].role, PortRole::Customer);

    let actions = program.on_punt(route_miss(PORT_CLASSIFY_NS + 1, 7, second));
    assert!(actions.is_empty());
    assert_eq!(program.local_customers.get(&second), Some(&7));
    assert_eq!(program.lsdb[&1].customers, vec![first, second]);
    assert_eq!(program.lsdb[&1].sequence, 1);
}

#[test]
fn timer_sends_hellos_and_rearms() {
    let mut program = A1Switch::new(1, vec![0, 1]);
    let actions = program.on_timer(TimerEvent { now_ns: 0 });
    assert_eq!(actions.len(), 3);
    assert_eq!(inject_payload(&actions[0]), (0, encode_hello(1, 1)));
    assert_eq!(inject_payload(&actions[1]), (1, encode_hello(1, 1)));
    assert_eq!(
        actions[2],
        Action::ScheduleTimer {
            delay_ns: HELLO_INTERVAL_NS
        }
    );
    assert_eq!(program.hello_sequence, 1);
    assert_eq!(program.sync_cursor, 1);
}

#[test]
fn timer_classifies_customer_and_installs_its_route_at_once() {
    let customer = 0x0a00_0101;
    let mut program = A1Switch::new(1, vec![7]);
    program.on_punt(route_miss(0, 7, customer));

    let first = program.on_timer(TimerEvent {
        now_ns: PORT_CLASSIFY_NS,
    });
    assert_eq!(
        first,
        vec![
            Action::InstallTableEntry {
                table: T_ROUTE,
                entry_id: u64::from(customer),
                key: u64::from(customer),
                prefix_len: 32,
                port: 7
            },
            Action::ScheduleTimer {
                delay_ns: HELLO_INTERVAL_NS
            }
        ]
    );
    assert_eq!(program.ports[&7].role, PortRole::Customer);
    assert_eq!(program.lsdb[&1].customers, vec![customer]);
    assert_eq!(
        program.installed_routes[&customer],
        InstalledRoute {
            entry_id: u64::from(customer),
            port: 7,
            next_hop: None
        }
    );
    assert!(!program.routing_dirty);

    let second = program.on_timer(TimerEvent {
        now_ns: PORT_CLASSIFY_NS + 1,
    });
    assert_eq!(
        second,
        vec![Action::ScheduleTimer {
            delay_ns: HELLO_INTERVAL_NS
        }]
    );
}

#[test]
fn stale_routes_are_recomputed_without_waiting() {
    let mut program = A1Switch::new(1, vec![]);
    assert!(program.routing_dirty);
    assert_eq!(program.last_routing_change_ns, 0);
    let mut batch = ActionBatch::new(ACTION_BUDGET_BYTES);
    program.maybe_recompute_routes(0, &mut batch);
    assert!(!program.routing_dirty);
    assert!(batch.actions.is_empty());
}

#[test]
fn silent_neighbor_expires_and_its_routes_are_withdrawn() {
    let customer = 0x0a00_0901;
    let mut program = A1Switch::new(1, vec![3]);
    program.on_punt(control_punt(0, 3, encode_hello(2, 1)));
    let remote = encode_lsa(&Lsa::new(2, 1, vec![1], vec![customer])).unwrap();
    assert!(program.on_punt(control_punt(1, 3, remote)).is_empty());

    let early = program.on_timer(TimerEvent { now_ns: 10_000_000 });
    assert_eq!(
        early[0],
        Action::InstallTableEntry {
            table: T_ROUTE,
            entry_id: u64::from(customer),
            key: u64::from(customer),
            prefix_len: 32,
            port: 3
        }
    );
    assert_eq!(early.len(), 3);
    assert_eq!(
        program.installed_routes[&customer],
        InstalledRoute {
            entry_id: u64::from(customer),
            port: 3,
            next_hop: Some(2)
        }
    );
    let before_dead = program.on_timer(TimerEvent {
        now_ns: NEIGHBOR_DEAD_NS - 1,
    });
    assert_eq!(before_dead.len(), 3);
    assert!(program.installed_routes.contains_key(&customer));

    let actions = program.on_timer(TimerEvent {
        now_ns: NEIGHBOR_DEAD_NS,
    });
    assert_eq!(
        actions[0],
        Action::DeleteTableEntry {
            table: T_ROUTE,
            entry_id: u64::from(customer)
        }
    );
    assert_eq!(inject_payload(&actions[1]).0, 3);
    assert_eq!(
        actions[2],
        Action::ScheduleTimer {
            delay_ns: HELLO_INTERVAL_NS
        }
    );
    assert_eq!(actions.len(), 3);
    assert!(program.installed_routes.is_empty());
    assert_eq!(
        program.ports[&3].role,
        PortRole::Switch {
            neighbor_id: 2,
            live: false
        }
    );
    assert!(program.lsdb[&1].neighbors.is_empty());
    assert_eq!(program.lsdb[&1].sequence, 2);
}

#[test]
fn hello_on_customer_port_withdraws_customer_state() {
    let customer = 0x0a00_0101;
    let mut program = A1Switch::new(1, vec![7]);
    program.on_punt(route_miss(0, 7, customer));
    assert!(program.classify_customer_ports(PORT_CLASSIFY_NS));
    let mut batch = ActionBatch::new(ACTION_BUDGET_BYTES);
    assert!(program.apply_route_diff(
        &BTreeMap::from([(
            customer,
            DesiredRoute {
                port: 7,
                next_hop: None,
            },
        )]),
        &mut batch,
    ));

    let actions = program.on_punt(control_punt(PORT_CLASSIFY_NS + 1, 7, encode_hello(2, 1)));
    assert!(program.local_customers.is_empty());
    assert!(program.installed_routes.is_empty());
    assert_eq!(
        actions[0],
        Action::DeleteTableEntry {
            table: T_ROUTE,
            entry_id: u64::from(customer)
        }
    );
    let own = encode_lsa(&Lsa::new(1, 1, vec![2], vec![])).unwrap();
    assert_eq!(actions.len(), 4);
    assert_eq!(inject_payload(&actions[1]), (7, own.clone()));
    assert_eq!(inject_payload(&actions[2]), (7, encode_hello(1, 0)));
    assert_eq!(inject_payload(&actions[3]), (7, own));
}

#[test]
fn quiet_timers_rotate_anti_entropy_through_lsdb() {
    let mut program = A1Switch::new(1, vec![3]);
    program.on_punt(control_punt(0, 3, encode_hello(2, 1)));
    let mut batch = ActionBatch::new(ACTION_BUDGET_BYTES);
    program.handle_lsa(1, 3, Lsa::new(9, 4, vec![], vec![]), &mut batch);
    assert!(batch.actions.is_empty());

    let first = program.on_timer(TimerEvent { now_ns: 10_000_000 });
    assert!(!program.routing_dirty);
    assert_eq!(first.len(), 3);
    assert_eq!(inject_payload(&first[0]), (3, encode_hello(1, 1)));
    assert_eq!(
        inject_payload(&first[1]),
        (3, encode_lsa(&program.lsdb[&1]).unwrap())
    );

    let second = program.on_timer(TimerEvent { now_ns: 20_000_000 });
    assert_eq!(second.len(), 3);
    assert_eq!(
        inject_payload(&second[1]),
        (3, encode_lsa(&program.lsdb[&9]).unwrap())
    );
    assert_eq!(program.sync_cursor, 2);
}

#[test]
fn timer_output_stays_within_budget() {
    let ports: Vec<u16> = (0..80).collect();
    let mut program = A1Switch::new(1, ports);
    let actions = program.on_timer(TimerEvent { now_ns: 0 });
    assert_eq!(actions.len(), 49);
    let total: usize = actions.iter().map(estimate).sum();
    assert_eq!(total, 48 * 66 + 24);
    assert!(total <= ACTION_BUDGET_BYTES);
}

#[test]
fn full_batch_leaves_route_diff_incomplete() {
    let mut program = A1Switch::new(1, vec![7, 8]);
    let desired = BTreeMap::from([
        (
            0x0a00_0101,
            DesiredRoute {
                port: 7,
                next_hop: None,
            },
        ),
        (
            0x0a00_0102,
            DesiredRoute {
                port: 8,
                next_hop: None,
            },
        ),
    ]);
    let mut batch = ActionBatch::new(100);
    assert!(!program.apply_route_diff(&desired, &mut batch));
    assert_eq!(batch.actions.len(), 1);
    assert_eq!(batch.estimated_bytes, 64);
    assert!(program.installed_routes.contains_key(&0x0a00_0101));
    assert!(!program.installed_routes.contains_key(&0x0a00_0102));

    let mut next = ActionBatch::new(100);
    assert!(program.apply_route_diff(&desired, &mut next));
    assert_eq!(next.actions.len(), 1);
}

#[test]
fn complete_diff_mirrors_desired_routes_under_customer_ids() {
    let mut program = A1Switch::new(1, vec![7, 8]);
    let desired = BTreeMap::from([
        (
            5,
            DesiredRoute {
                port: 7,
                next_hop: Some(2),
            },
        ),
        (
            9,
            DesiredRoute {
                port: 8,
                next_hop: None,
            },
        ),
    ]);
    let mut batch = ActionBatch::new(ACTION_BUDGET_BYTES);
    assert!(program.apply_route_diff(&desired, &mut batch));
    assert_eq!(program.installed_routes.len(), desired.len());
    for (customer, route) in &desired {
        let installed = program.installed_routes[customer];
        assert_eq!(installed.entry_id, u64::from(*customer));
        assert_eq!(installed.port, route.port);
        assert_eq!(installed.next_hop, route.next_hop);
    }

    let stale = BTreeMap::from([(
        9,
        DesiredRoute {
            port: 8,
            next_hop: None,
        },
    )]);
    let mut removal = ActionBatch::new(ACTION_BUDGET_BYTES);
    assert!(program.apply_route_diff(&stale, &mut removal));
    assert_eq!(
        removal.actions,
        vec![Action::DeleteTableEntry {
            table: T_ROUTE,
            entry_id: 5
        }]
    );
    assert_eq!(program.installed_routes.len(), 1);
}

#[test]
fn lsa_needs_live_ingress_and_foreign_origin() {
    let mut program = A1Switch::new(1, vec![3]);
    let mut batch = ActionBatch::new(ACTION_BUDGET_BYTES);
    program.handle_lsa(1, 3, Lsa::new(9, 1, vec![], vec![]), &mut batch);
    assert!(!program.lsdb.contains_key(&9));

    program.handle_hello(
        2,
        3,
        Hello {
            sender: 2,
            sequence: 1,
        },
        &mut batch,
    );
    program.handle_lsa(3, 3, Lsa::new(1, 50, vec![], vec![]), &mut batch);
    assert_eq!(program.lsdb[&1].sequence, 1);
    program.handle_lsa(4, 3, Lsa::new(9, 1, vec![], vec![]), &mut batch);
    assert_eq!(program.lsdb[&9].sequence, 1);
}

#[test]
fn anti_entropy_floods_each_record_once_per_turn() {
    let mut program = A1Switch::new(1, vec![3]);
    program.on_punt(control_punt(0, 3, encode_hello(2, 1)));
    let mut batch = ActionBatch::new(ACTION_BUDGET_BYTES);
    program.handle_lsa(1, 3, Lsa::new(9, 4, vec![], vec![]), &mut batch);
    program.handle_lsa(2, 3, Lsa::new(5, 2, vec![], vec![7]), &mut batch);
    assert_eq!(program.lsdb.len(), 3);
    program.sync_cursor = 5;

    let mut flooded = Vec::new();
    for _ in 0..3 {
        let mut round = ActionBatch::new(ACTION_BUDGET_BYTES);
        program.emit_anti_entropy(&mut round);
        assert_eq!(round.actions.len(), 1);
        flooded.push(inject_payload(&round.actions[0]));
    }
    assert_eq!(program.sync_cursor, 8);
    let expected: Vec<(u16, Vec<u8>)> = [9u32, 1, 5]
        .iter()
        .map(|origin| (3, encode_lsa(&program.lsdb[origin]).unwrap()))
        .collect();
    assert_eq!(flooded, expected);
}

#[test]
fn route_diff_actions_use_customer_entries() {
    let mut program = A1Switch::new(1, vec![7, 8]);
    let mut first = ActionBatch::new(ACTION_BUDGET_BYTES);
    assert!(program.apply_route_diff(
        &BTreeMap::from([
            (
                11,
                DesiredRoute {
                    port: 7,
                    next_hop: None,
                },
            ),
            (
                12,
                DesiredRoute {
                    port: 7,
                    next_hop: Some(2),
                },
            ),
        ]),
        &mut first,
    ));
    let mut second = ActionBatch::new(ACTION_BUDGET_BYTES);
    assert!(program.apply_route_diff(
        &BTreeMap::from([
            (
                12,
                DesiredRoute {
                    port: 8,
                    next_hop: Some(3),
                },
            ),
            (
                13,
                DesiredRoute {
                    port: 8,
                    next_hop: None,
                },
            ),
        ]),
        &mut second,
    ));
    assert_eq!(
        second.actions,
        vec![
            Action::DeleteTableEntry {
                table: T_ROUTE,
                entry_id: 11
            },
            Action::DeleteTableEntry {
                table: T_ROUTE,
                entry_id: 12
            },
            Action::InstallTableEntry {
                table: T_ROUTE,
                entry_id: 12,
                key: 12,
                prefix_len: 32,
                port: 8
            },
            Action::InstallTableEntry {
                table: T_ROUTE,
                entry_id: 13,
                key: 13,
                prefix_len: 32,
                port: 8
            },
        ]
    );
}
