//! Per-switch control state: neighbor discovery with HELLOs, customer
//! discovery from route misses, LSDB flooding, and the route-table diff that
//! turns desired routes into table actions under an output budget.

use std::collections::{BTreeMap, BTreeSet};
use vstd::prelude::*;

use crate::ordered::{
    ascending_u16, ascending_u32, elements_u32, keys_u16, keys_u32, lemma_sorted_ids_is,
    lemma_sorted_ports_is, sorted_ids, sorted_ports,
};
use crate::protocol::{
    canonical_lsa, encode_hello, encode_lsa, hello_bytes, lsa_bytes, Hello, Lsa, LsaView,
    MAX_LIST_ITEMS,
};
use crate::routing::{desired_routes, lsdb_view, spec_route, DesiredRoute};

verus! {

broadcast use vstd::std_specs::btree::group_btree_axioms;

pub const T_CONTROL: u32 = 1;

pub const T_ROUTE: u32 = 2;

pub const CONTROL_PROTO: u8 = 253;

pub const CONTROL_REASON: u32 = 0x4e41_3101;

pub const CONTROL_DST: u32 = 0xe000_00fd;

pub const CONTROL_SOURCE_BASE: u32 = 0xa9fe_0000;

pub const HELLO_INTERVAL_NS: u64 = 25_000_000;

pub const PORT_CLASSIFY_NS: u64 = 50_000_000;

pub const NEIGHBOR_DEAD_NS: u64 = 100_000_000;

pub const ROUTE_TABLE_CAPACITY: u32 = 256;

/// Conservative encoded-size estimate. The real host limit is 4096 bytes;
/// leaving headroom also covers framing that is not calculated here.
pub const ACTION_BUDGET_BYTES: usize = 3_200;

pub const CONTROL_ACTION_OVERHEAD: usize = 48;

pub const INSTALL_ACTION_ESTIMATE: usize = 64;

pub const DELETE_ACTION_ESTIMATE: usize = 32;

pub const TIMER_ACTION_ESTIMATE: usize = 24;

// ---------------------------------------------------------------------------
// Actions and the output budget
// ---------------------------------------------------------------------------

/// A request to the switch host.
#[derive(Debug, Clone, PartialEq, Eq)]
pub enum Action {
    InjectPacket { port: u16, src_ip: u32, dst_ip: u32, ip_proto: u8, ttl: u8, payload: Vec<u8> },
    InstallTableEntry { table: u32, entry_id: u64, key: u64, prefix_len: u8, port: u16 },
    DeleteTableEntry { table: u32, entry_id: u64 },
    ScheduleTimer { delay_ns: u64 },
}

/// The content of an [`Action`].
pub enum ActionView {
    InjectPacket { port: u16, src_ip: u32, dst_ip: u32, ip_proto: u8, ttl: u8, payload: Seq<u8> },
    InstallTableEntry { table: u32, entry_id: u64, key: u64, prefix_len: u8, port: u16 },
    DeleteTableEntry { table: u32, entry_id: u64 },
    ScheduleTimer { delay_ns: u64 },
}

impl View for Action {
    type V = ActionView;

    open spec fn view(&self) -> ActionView {
        match self {
            Action::InjectPacket { port, src_ip, dst_ip, ip_proto, ttl, payload } => {
                ActionView::InjectPacket {
                    port: *port,
                    src_ip: *src_ip,
                    dst_ip: *dst_ip,
                    ip_proto: *ip_proto,
                    ttl: *ttl,
                    payload: payload@,
                }
            },
            Action::InstallTableEntry { table, entry_id, key, prefix_len, port } => {
                ActionView::InstallTableEntry {
                    table: *table,
                    entry_id: *entry_id,
                    key: *key,
                    prefix_len: *prefix_len,
                    port: *port,
                }
            },
            Action::DeleteTableEntry { table, entry_id } => ActionView::DeleteTableEntry {
                table: *table,
                entry_id: *entry_id,
            },
            Action::ScheduleTimer { delay_ns } => ActionView::ScheduleTimer { delay_ns: *delay_ns },
        }
    }
}

pub open spec fn actions_view(v: Seq<Action>) -> Seq<ActionView> {
    v.map_values(|a: Action| a@)
}

/// Actions collected during one callback, with their estimated encoded size.
pub struct ActionBatch {
    pub actions: Vec<Action>,
    pub estimated_bytes: usize,
    pub limit: usize,
}

/// The content of an [`ActionBatch`].
#[verifier::ext_equal]
pub struct BatchView {
    pub actions: Seq<ActionView>,
    pub estimated: int,
    pub limit: int,
}

impl View for ActionBatch {
    type V = BatchView;

    open spec fn view(&self) -> BatchView {
        BatchView {
            actions: actions_view(self.actions@),
            estimated: self.estimated_bytes as int,
            limit: self.limit as int,
        }
    }
}

/// `a + b`, saturating at `usize::MAX`.
pub open spec fn sat_add(a: int, b: int) -> int {
    if a + b > usize::MAX {
        usize::MAX as int
    } else {
        a + b
    }
}

/// An action of estimated size `e` still fits the batch.
pub open spec fn fits(b: BatchView, e: int) -> bool {
    sat_add(b.estimated, e) <= b.limit
}

/// The batch after offering it an action: added when it fits, else unchanged.
pub open spec fn offered(b: BatchView, a: ActionView, e: int) -> BatchView {
    if fits(b, e) {
        BatchView { actions: b.actions.push(a), estimated: b.estimated + e, limit: b.limit }
    } else {
        b
    }
}

/// Offering every item in turn, whether or not earlier ones fitted.
pub open spec fn offered_all(b: BatchView, items: Seq<(ActionView, int)>) -> BatchView
    decreases items.len(),
{
    if items.len() == 0 {
        b
    } else {
        offered(offered_all(b, items.drop_last()), items.last().0, items.last().1)
    }
}

/// The estimated encoded size of one action.
pub open spec fn action_size(a: ActionView) -> int {
    match a {
        ActionView::InjectPacket { payload, .. } => control_estimate(payload.len() as int),
        ActionView::InstallTableEntry { .. } => INSTALL_ACTION_ESTIMATE as int,
        ActionView::DeleteTableEntry { .. } => DELETE_ACTION_ESTIMATE as int,
        ActionView::ScheduleTimer { .. } => TIMER_ACTION_ESTIMATE as int,
    }
}

/// The estimated encoded size of a list of actions.
pub open spec fn total_size(s: Seq<ActionView>) -> int
    decreases s.len(),
{
    if s.len() == 0 {
        0
    } else {
        total_size(s.drop_last()) + action_size(s.last())
    }
}

/// The batch's estimate is the size of its actions and stays within its limit.
pub open spec fn batch_wf(b: BatchView) -> bool {
    &&& 0 <= b.estimated <= b.limit < usize::MAX
    &&& b.estimated == total_size(b.actions)
}

impl ActionBatch {
    pub fn new(limit: usize) -> (r: Self)
        ensures
            r@.actions == Seq::<ActionView>::empty(),
            r@.estimated == 0,
            r@.limit == limit,
            limit < usize::MAX ==> batch_wf(r@),
    {
        let r = ActionBatch { actions: Vec::new(), estimated_bytes: 0, limit };
        assert(r@.actions =~= Seq::<ActionView>::empty());
        r
    }

    pub fn can_fit(&self, estimated_bytes: usize) -> (r: bool)
        ensures
            r == fits(self@, estimated_bytes as int),
    {
        self.estimated_bytes.saturating_add(estimated_bytes) <= self.limit
    }

    pub fn try_push(&mut self, action: Action, estimated_bytes: usize) -> (r: bool)
        requires
            old(self).estimated_bytes + estimated_bytes <= usize::MAX || old(self).limit < usize::MAX,
        ensures
            r == fits(old(self)@, estimated_bytes as int),
            final(self)@ == offered(old(self)@, action@, estimated_bytes as int),
            batch_wf(old(self)@) && estimated_bytes == action_size(action@) ==> batch_wf(final(self)@),
            final(self).limit == old(self).limit,
    {
        if !self.can_fit(estimated_bytes) {
            return false;
        }
        let ghost before = self.actions@;
        self.actions.push(action);
        self.estimated_bytes = self.estimated_bytes + estimated_bytes;
        assert(actions_view(self.actions@) =~= actions_view(before).push(action@));
        assert(actions_view(before).push(action@).drop_last() =~= actions_view(before));
        true
    }

    pub fn has_work(&self) -> (r: bool)
        ensures
            r == (self@.actions.len() > 0),
    {
        !self.actions.is_empty()
    }

    pub fn into_actions(self) -> (r: Vec<Action>)
        ensures
            actions_view(r@) == self@.actions,
    {
        self.actions
    }

    pub fn into_actions_with_timer(self) -> (r: Vec<Action>)
        ensures
            actions_view(r@) == self@.actions.push(
                ActionView::ScheduleTimer { delay_ns: HELLO_INTERVAL_NS },
            ),
            total_size(actions_view(r@)) == total_size(self@.actions) + TIMER_ACTION_ESTIMATE,
    {
        // Timer space was reserved by constructing this batch with the smaller
        // limit in `on_timer`.
        let mut actions = self.actions;
        let ghost before = actions@;
        actions.push(Action::ScheduleTimer { delay_ns: HELLO_INTERVAL_NS });
        assert(actions_view(actions@) =~= actions_view(before).push(
            ActionView::ScheduleTimer { delay_ns: HELLO_INTERVAL_NS },
        ));
        assert(actions_view(actions@).drop_last() =~= actions_view(before));
        actions
    }
}

// ---------------------------------------------------------------------------
// Switch state
// ---------------------------------------------------------------------------

#[derive(Debug, Clone, Copy, PartialEq, Eq, Structural)]
pub enum PortRole {
    Unknown,
    Switch { neighbor_id: u32, live: bool },
    Customer,
}

#[derive(Debug, Clone)]
pub struct PortState {
    pub role: PortRole,
    pub last_hello_ns: Option<u64>,
    pub last_hello_sequence: Option<u64>,
    pub first_data_ns: Option<u64>,
    pub candidate_customers: BTreeSet<u32>,
}

/// The content of a [`PortState`].
pub struct PortView {
    pub role: PortRole,
    pub last_hello_ns: Option<u64>,
    pub last_hello_sequence: Option<u64>,
    pub first_data_ns: Option<u64>,
    pub candidate_customers: Set<u32>,
}

impl View for PortState {
    type V = PortView;

    open spec fn view(&self) -> PortView {
        PortView {
            role: self.role,
            last_hello_ns: self.last_hello_ns,
            last_hello_sequence: self.last_hello_sequence,
            first_data_ns: self.first_data_ns,
            candidate_customers: self.candidate_customers@,
        }
    }
}

/// A port that has not been classified yet.
pub open spec fn unknown_port() -> PortView {
    PortView {
        role: PortRole::Unknown,
        last_hello_ns: None,
        last_hello_sequence: None,
        first_data_ns: None,
        candidate_customers: Set::empty(),
    }
}

impl PortState {
    pub fn unknown() -> (r: Self)
        ensures
            r@ == unknown_port(),
    {
        PortState {
            role: PortRole::Unknown,
            last_hello_ns: None,
            last_hello_sequence: None,
            first_data_ns: None,
            candidate_customers: BTreeSet::new(),
        }
    }
}

#[derive(Debug, Clone, Copy, PartialEq, Eq, Structural)]
pub struct InstalledRoute {
    pub entry_id: u64,
    pub port: u16,
    pub next_hop: Option<u32>,
}

pub struct A1Switch {
    pub switch_id: u32,
    pub ports: BTreeMap<u16, PortState>,
    pub hello_sequence: u64,
    pub local_lsa_sequence: u64,
    pub lsdb: BTreeMap<u32, Lsa>,
    pub local_customers: BTreeMap<u32, u16>,
    pub installed_routes: BTreeMap<u32, InstalledRoute>,
    pub routing_dirty: bool,
    pub last_routing_change_ns: u64,
    pub sync_cursor: usize,
}

/// The content of an [`A1Switch`].
#[verifier::ext_equal]
pub struct SwitchView {
    pub switch_id: u32,
    pub ports: Map<u16, PortView>,
    pub hello_sequence: u64,
    pub local_lsa_sequence: u64,
    pub lsdb: Map<u32, LsaView>,
    pub local_customers: Map<u32, u16>,
    pub installed_routes: Map<u32, InstalledRoute>,
    pub routing_dirty: bool,
    pub last_routing_change_ns: u64,
    pub sync_cursor: usize,
}

pub open spec fn ports_view(m: Map<u16, PortState>) -> Map<u16, PortView> {
    m.map_values(|p: PortState| p@)
}

impl View for A1Switch {
    type V = SwitchView;

    open spec fn view(&self) -> SwitchView {
        SwitchView {
            switch_id: self.switch_id,
            ports: ports_view(self.ports@),
            hello_sequence: self.hello_sequence,
            local_lsa_sequence: self.local_lsa_sequence,
            lsdb: lsdb_view(self.lsdb@),
            local_customers: self.local_customers@,
            installed_routes: self.installed_routes@,
            routing_dirty: self.routing_dirty,
            last_routing_change_ns: self.last_routing_change_ns,
            sync_cursor: self.sync_cursor,
        }
    }
}

/// The port's role is a live switch link.
pub open spec fn is_live(role: PortRole) -> bool {
    role matches PortRole::Switch { live: true, .. }
}

/// The neighbor named by a switch role.
pub open spec fn neighbor_of(role: PortRole) -> u32 {
    match role {
        PortRole::Switch { neighbor_id, .. } => neighbor_id,
        _ => 0,
    }
}

/// Ports whose neighbor is currently live.
pub open spec fn live_ports(ports: Map<u16, PortView>) -> Set<u16> {
    Set::new(|p: u16| ports.contains_key(p) && is_live(ports[p].role))
}

/// `(port, neighbor)` for each live port, in ascending port order.
pub open spec fn live_pairs(ports: Map<u16, PortView>) -> Seq<(u16, u32)> {
    sorted_ports(live_ports(ports)).map_values(|p: u16| (p, neighbor_of(ports[p].role)))
}

/// The ports of a `(port, neighbor)` list.
pub open spec fn ports_of(r: Seq<(u16, u32)>) -> Seq<u16> {
    r.map_values(|e: (u16, u32)| e.0)
}

/// The identifiers of the live neighbors.
pub open spec fn live_neighbor_ids(ports: Map<u16, PortView>) -> Set<u32> {
    Set::new(|n: u32| exists|p: u16| #[trigger] live_ports(ports).contains(p) && neighbor_of(ports[p].role) == n)
}

/// `(neighbor, port)` for each live port.
pub open spec fn neighbor_entries(ports: Map<u16, PortView>) -> Set<(u32, u16)> {
    Set::new(|e: (u32, u16)| live_ports(ports).contains(e.1) && neighbor_of(ports[e.1].role) == e.0)
}

/// Strict lexicographic order on (neighbor, port).
pub open spec fn entry_lt(a: (u32, u16), b: (u32, u16)) -> bool {
    a.0 < b.0 || (a.0 == b.0 && a.1 < b.1)
}

/// The source address of this switch's control packets.
pub open spec fn control_source_of(switch_id: u32) -> u32 {
    CONTROL_SOURCE_BASE | (switch_id & 0xffff)
}

/// A control packet from this switch out of `port`.
pub open spec fn inject(switch_id: u32, port: u16, payload: Seq<u8>) -> ActionView {
    ActionView::InjectPacket {
        port,
        src_ip: control_source_of(switch_id),
        dst_ip: CONTROL_DST,
        ip_proto: CONTROL_PROTO,
        ttl: 1,
        payload,
    }
}

/// Estimated size of a control packet carrying `len` payload bytes.
pub open spec fn control_estimate(len: int) -> int {
    sat_add(CONTROL_ACTION_OVERHEAD as int, len)
}

/// `x + 1`, saturating at `u64::MAX`.
pub open spec fn sat_inc64(x: u64) -> u64 {
    if x == u64::MAX {
        x
    } else {
        (x + 1) as u64
    }
}

/// An advertisement both of whose lists fit the wire format.
pub open spec fn encodable(l: LsaView) -> bool {
    l.neighbors.len() <= MAX_LIST_ITEMS && l.customers.len() <= MAX_LIST_ITEMS
}

/// One control packet carrying `payload` per port of `ps` other than `except`.
pub open spec fn flood_items(switch_id: u32, ps: Seq<u16>, payload: Seq<u8>, except: Option<u16>) -> Seq<(ActionView, int)>
    decreases ps.len(),
{
    if ps.len() == 0 {
        Seq::empty()
    } else {
        let rest = flood_items(switch_id, ps.drop_last(), payload, except);
        if except == Some(ps.last()) {
            rest
        } else {
            rest.push((inject(switch_id, ps.last(), payload), control_estimate(payload.len() as int)))
        }
    }
}

/// The batch after flooding `l` to every live neighbor except `except`
/// (nothing is sent for an advertisement that cannot be encoded).
pub open spec fn flooded(b: BatchView, s: SwitchView, l: LsaView, except: Option<u16>) -> BatchView {
    if encodable(l) {
        offered_all(b, flood_items(s.switch_id, sorted_ports(live_ports(s.ports)), lsa_bytes(l), except))
    } else {
        b
    }
}

/// One control packet per encodable advertisement of `origins`, in order.
pub open spec fn sync_items(switch_id: u32, port: u16, lsdb: Map<u32, LsaView>, origins: Seq<u32>) -> Seq<(ActionView, int)>
    decreases origins.len(),
{
    if origins.len() == 0 {
        Seq::empty()
    } else {
        let rest = sync_items(switch_id, port, lsdb, origins.drop_last());
        let l = lsdb[origins.last()];
        if encodable(l) {
            rest.push((inject(switch_id, port, lsa_bytes(l)), control_estimate(lsa_bytes(l).len() as int)))
        } else {
            rest
        }
    }
}

/// Offering items in turn until the first that does not fit; the flag says
/// whether that happened.
pub open spec fn offered_until_full(b: BatchView, items: Seq<(ActionView, int)>) -> (BatchView, bool)
    decreases items.len(),
{
    if items.len() == 0 {
        (b, false)
    } else {
        let (b1, full) = offered_until_full(b, items.drop_last());
        if full {
            (b1, true)
        } else if fits(b1, items.last().1) {
            (offered(b1, items.last().0, items.last().1), false)
        } else {
            (b1, true)
        }
    }
}

/// The advertisement this switch would publish now.
pub open spec fn refreshed_lsa(s: SwitchView) -> LsaView {
    canonical_lsa(
        s.switch_id,
        sat_inc64(s.local_lsa_sequence),
        sorted_ids(live_neighbor_ids(s.ports)),
        sorted_ids(s.local_customers.dom()),
    )
}

/// The stored local advertisement already lists exactly the live neighbors and
/// local customers.
pub open spec fn local_lsa_current(s: SwitchView) -> bool {
    &&& s.lsdb.contains_key(s.switch_id)
    &&& s.lsdb[s.switch_id].neighbors == sorted_ids(live_neighbor_ids(s.ports))
    &&& s.lsdb[s.switch_id].customers == sorted_ids(s.local_customers.dom())
}

/// The state after publishing `refreshed_lsa`.
pub open spec fn after_refresh(s: SwitchView, now: u64) -> SwitchView {
    SwitchView {
        local_lsa_sequence: sat_inc64(s.local_lsa_sequence),
        lsdb: s.lsdb.insert(s.switch_id, refreshed_lsa(s)),
        routing_dirty: true,
        last_routing_change_ns: now,
        ..s
    }
}

/// Removing, in the order of `cs`, the installed routes whose delete action
/// still fits the batch.
pub open spec fn withdrawn(installed: Map<u32, InstalledRoute>, b: BatchView, cs: Seq<u32>) -> (Map<u32, InstalledRoute>, BatchView)
    decreases cs.len(),
{
    if cs.len() == 0 {
        (installed, b)
    } else {
        let (m, b1) = withdrawn(installed, b, cs.drop_last());
        let c = cs.last();
        let del = ActionView::DeleteTableEntry { table: T_ROUTE, entry_id: installed[c].entry_id };
        if fits(b1, DELETE_ACTION_ESTIMATE as int) {
            (m.remove(c), offered(b1, del, DELETE_ACTION_ESTIMATE as int))
        } else {
            (m, b1)
        }
    }
}

/// Customers whose installed route leaves through `port`.
pub open spec fn routes_on_port(installed: Map<u32, InstalledRoute>, port: u16) -> Set<u32> {
    Set::new(|c: u32| installed.contains_key(c) && installed[c].port == port)
}

/// Publishing a fresh local advertisement when local facts changed.
pub open spec fn refresh_step(s: SwitchView, now: u64, b: BatchView) -> (SwitchView, BatchView) {
    if local_lsa_current(s) {
        (s, b)
    } else {
        (after_refresh(s, now), flooded(b, s, refreshed_lsa(s), None))
    }
}

/// An LSA is stored (and flooded) only when it arrives on a live switch port,
/// is not about this switch, and is strictly newer than the stored one.
pub open spec fn lsa_accepted(s: SwitchView, ingress_port: u16, l: LsaView) -> bool {
    &&& s.ports.contains_key(ingress_port)
    &&& is_live(s.ports[ingress_port].role)
    &&& l.origin != s.switch_id
    &&& !(s.lsdb.contains_key(l.origin) && s.lsdb[l.origin].sequence >= l.sequence)
}

/// A HELLO that changes nothing: our own, on an unknown port, or not newer than
/// the last one from the same neighbor on that port.
pub open spec fn hello_ignored(s: SwitchView, ingress_port: u16, h: Hello) -> bool {
    ||| h.sender == s.switch_id
    ||| !s.ports.contains_key(ingress_port)
    ||| stale_hello(s.ports[ingress_port], h)
}

/// The port already heard this neighbor with an equal or newer sequence.
pub open spec fn stale_hello(p: PortView, h: Hello) -> bool {
    &&& p.role matches PortRole::Switch { neighbor_id, .. } && neighbor_id == h.sender
    &&& p.last_hello_sequence matches Some(last) && h.sequence <= last
}

/// A HELLO on a port in this role changes the local neighbor facts.
pub open spec fn hello_changes_neighbors(role: PortRole, sender: u32) -> bool {
    match role {
        PortRole::Unknown => true,
        PortRole::Customer => true,
        PortRole::Switch { neighbor_id, live } => neighbor_id != sender || !live,
    }
}

/// A port freshly bound to a live neighbor by a HELLO.
pub open spec fn fresh_switch_port(sender: u32, now: u64, sequence: u64) -> PortView {
    PortView {
        role: PortRole::Switch { neighbor_id: sender, live: true },
        last_hello_ns: Some(now),
        last_hello_sequence: Some(sequence),
        first_data_ns: None,
        candidate_customers: Set::empty(),
    }
}

/// Forgetting the local customers learned on `port`.
pub open spec fn without_customers_on(m: Map<u32, u16>, port: u16) -> Map<u32, u16> {
    m.restrict(Set::new(|c: u32| m.contains_key(c) && m[c] != port))
}

/// Withdrawing the local customers and installed routes of a port.
pub open spec fn customer_port_withdrawal(s: SwitchView, port: u16, b: BatchView) -> (SwitchView, BatchView) {
    let (m, b1) = withdrawn(
        s.installed_routes,
        b,
        sorted_ids(routes_on_port(s.installed_routes, port)),
    );
    (SwitchView {
        local_customers: without_customers_on(s.local_customers, port),
        installed_routes: m,
        ..s
    }, b1)
}

/// The whole effect of a HELLO that is not ignored: bind the port, repair a
/// mistaken customer classification, and on a neighbor change publish a new
/// local LSA, reply with a HELLO and send the LSDB down the link.
pub open spec fn hello_step(s: SwitchView, now: u64, ingress_port: u16, h: Hello, b: BatchView) -> (SwitchView, BatchView) {
    let old_role = s.ports[ingress_port].role;
    let s1 = SwitchView {
        ports: s.ports.insert(ingress_port, fresh_switch_port(h.sender, now, h.sequence)),
        ..s
    };
    let (s2, b2) = if old_role == PortRole::Customer {
        customer_port_withdrawal(s1, ingress_port, b)
    } else {
        (s1, b)
    };
    if hello_changes_neighbors(old_role, h.sender) {
        let (s3, b3) = refresh_step(s2, now, b2);
        let b4 = offered(
            b3,
            inject(s3.switch_id, ingress_port, hello_bytes(s3.switch_id, s3.hello_sequence)),
            control_estimate(18),
        );
        let b5 = offered_until_full(
            b4,
            sync_items(s3.switch_id, ingress_port, s3.lsdb, sorted_ids(s3.lsdb.dom())),
        ).0;
        (s3, b5)
    } else {
        (s2, b2)
    }
}

/// The port after ordinary traffic from `source` arrived on it.
pub open spec fn port_after_data(p: PortView, now: u64, source: u32) -> PortView {
    match p.role {
        PortRole::Unknown => PortView {
            first_data_ns: if p.first_data_ns is Some { p.first_data_ns } else { Some(now) },
            candidate_customers: p.candidate_customers.insert(source),
            ..p
        },
        PortRole::Customer => PortView {
            candidate_customers: p.candidate_customers.insert(source),
            ..p
        },
        PortRole::Switch { .. } => p,
    }
}

/// The effect of a route miss from `source` on `ingress_port`: unknown ports
/// collect candidates, confirmed customer ports learn the customer, and a
/// newly learned customer is advertised.
pub open spec fn customer_punt_step(s: SwitchView, now: u64, ingress_port: u16, source: u32, b: BatchView) -> (SwitchView, BatchView) {
    if source == 0 || !s.ports.contains_key(ingress_port) {
        (s, b)
    } else {
        let p = s.ports[ingress_port];
        let is_customer = p.role == PortRole::Customer;
        let s1 = SwitchView {
            ports: s.ports.insert(ingress_port, port_after_data(p, now, source)),
            local_customers: if is_customer {
                s.local_customers.insert(source, ingress_port)
            } else {
                s.local_customers
            },
            ..s
        };
        if is_customer && !s.local_customers.contains_key(source) {
            refresh_step(s1, now, b)
        } else {
            (s1, b)
        }
    }
}

/// `a - b`, saturating at zero.
pub open spec fn sat_sub(a: u64, b: u64) -> int {
    if a >= b {
        a - b
    } else {
        0
    }
}

/// A live neighbor silent for at least the dead interval.
pub open spec fn expires(p: PortView, now: u64) -> bool {
    &&& is_live(p.role)
    &&& p.last_hello_ns matches Some(last) && sat_sub(now, last) >= NEIGHBOR_DEAD_NS
}

pub open spec fn expired_ports(ports: Map<u16, PortView>, now: u64) -> Set<u16> {
    Set::new(|p: u16| ports.contains_key(p) && expires(ports[p], now))
}

/// Ports after marking every silent live neighbor down.
pub open spec fn after_expiry(ports: Map<u16, PortView>, now: u64) -> Map<u16, PortView> {
    Map::new(
        |p: u16| ports.contains_key(p),
        |p: u16|
            if expires(ports[p], now) {
                PortView {
                    role: PortRole::Switch { neighbor_id: neighbor_of(ports[p].role), live: false },
                    ..ports[p]
                }
            } else {
                ports[p]
            },
    )
}

/// An unknown port that carried traffic, heard no HELLO for the classification
/// period, and has candidate customers.
pub open spec fn ready_for_customers(p: PortView, now: u64) -> bool {
    &&& p.role == PortRole::Unknown
    &&& p.first_data_ns matches Some(first) && sat_sub(now, first) >= PORT_CLASSIFY_NS
    &&& !p.candidate_customers.is_empty()
}

/// Ports after confirming every ready port as a customer port.
pub open spec fn after_classify(ports: Map<u16, PortView>, now: u64) -> Map<u16, PortView> {
    Map::new(
        |p: u16| ports.contains_key(p),
        |p: u16|
            if ready_for_customers(ports[p], now) {
                PortView { role: PortRole::Customer, ..ports[p] }
            } else {
                ports[p]
            },
    )
}

/// `(customer, port)` for the candidates of each ready port of `ps`, in order.
pub open spec fn learned_pairs(ports: Map<u16, PortView>, now: u64, ps: Seq<u16>) -> Seq<(u32, u16)>
    decreases ps.len(),
{
    if ps.len() == 0 {
        Seq::empty()
    } else {
        let rest = learned_pairs(ports, now, ps.drop_last());
        let p = ps.last();
        if ready_for_customers(ports[p], now) {
            rest + sorted_ids(ports[p].candidate_customers).map_values(|c: u32| (c, p))
        } else {
            rest
        }
    }
}

/// Recording each learned pair in turn; the flag says whether some pair
/// changed the port recorded for its customer.
pub open spec fn learn_all(local: Map<u32, u16>, pairs: Seq<(u32, u16)>) -> (Map<u32, u16>, bool)
    decreases pairs.len(),
{
    if pairs.len() == 0 {
        (local, false)
    } else {
        let (m, changed) = learn_all(local, pairs.drop_last());
        let (c, p) = pairs.last();
        (m.insert(c, p), changed || !(m.contains_key(c) && m[c] == p))
    }
}

/// One HELLO per non-customer port of `ps`.
pub open spec fn hello_items(switch_id: u32, ports: Map<u16, PortView>, ps: Seq<u16>, payload: Seq<u8>) -> Seq<(ActionView, int)>
    decreases ps.len(),
{
    if ps.len() == 0 {
        Seq::empty()
    } else {
        let rest = hello_items(switch_id, ports, ps.drop_last(), payload);
        if ports[ps.last()].role == PortRole::Customer {
            rest
        } else {
            rest.push((inject(switch_id, ps.last(), payload), control_estimate(payload.len() as int)))
        }
    }
}

/// The LSDB record that anti-entropy sends next.
pub open spec fn anti_entropy_origin(s: SwitchView) -> u32 {
    let os = sorted_ids(s.lsdb.dom());
    os[(s.sync_cursor % (os.len() as usize)) as int]
}

/// `x + 1`, wrapping at `usize::MAX`.
pub open spec fn wrapping_inc(x: usize) -> usize {
    if x == usize::MAX {
        0
    } else {
        (x + 1) as usize
    }
}

/// `(neighbor, port)` entries listed in strictly increasing order.
pub open spec fn entries_sorted(r: Seq<(u32, u16)>) -> bool {
    forall|a: int, b: int| 0 <= a < b < r.len() ==> entry_lt(r[a], r[b])
}

/// The sorted listing of a set of entries (meaningful for finite sets).
pub open spec fn sorted_entries(s: Set<(u32, u16)>) -> Seq<(u32, u16)> {
    choose|r: Seq<(u32, u16)>| entries_sorted(r) && r.to_set() == s
}

/// Two sorted listings of the same entries are the same sequence.
pub proof fn lemma_sorted_entries_unique(r1: Seq<(u32, u16)>, r2: Seq<(u32, u16)>, s: Set<(u32, u16)>)
    requires
        entries_sorted(r1),
        r1.to_set() == s,
        entries_sorted(r2),
        r2.to_set() == s,
    ensures
        r1 == r2,
    decreases r1.len(),
{
    if r1.len() == 0 {
        if r2.len() > 0 {
            assert(r2.to_set().contains(r2[0]));
            assert(!r1.to_set().contains(r2[0]));
        }
        assert(r1 =~= r2);
    } else {
        assert(r1.to_set().contains(r1[0]));
        assert(r2.to_set().contains(r1[0]));
        let k2 = r2.index_of(r1[0]);
        assert(r2.to_set().contains(r2[0]));
        assert(r1.to_set().contains(r2[0]));
        let k1 = r1.index_of(r2[0]);
        if k1 > 0 {
            assert(entry_lt(r1[0], r1[k1]));
        }
        if k2 > 0 {
            assert(entry_lt(r2[0], r2[k2]));
        }
        assert(r1[0] == r2[0]);
        let x = r1[0];
        let t1 = r1.drop_first();
        let t2 = r2.drop_first();
        assert forall|y: (u32, u16)| t1.to_set().contains(y) <==> s.remove(x).contains(y) by {
            if t1.to_set().contains(y) {
                let k = t1.index_of(y);
                assert(r1[k + 1] == y);
                assert(r1.to_set().contains(y));
                assert(entry_lt(r1[0], r1[k + 1]));
            }
            if s.remove(x).contains(y) {
                assert(r1.to_set().contains(y));
                let k = r1.index_of(y);
                assert(k != 0);
                assert(t1[k - 1] == y);
            }
        }
        assert forall|y: (u32, u16)| t2.to_set().contains(y) <==> s.remove(x).contains(y) by {
            if t2.to_set().contains(y) {
                let k = t2.index_of(y);
                assert(r2[k + 1] == y);
                assert(r2.to_set().contains(y));
                assert(entry_lt(r2[0], r2[k + 1]));
            }
            if s.remove(x).contains(y) {
                assert(r2.to_set().contains(y));
                let k = r2.index_of(y);
                assert(k != 0);
                assert(t2[k - 1] == y);
            }
        }
        assert(t1.to_set() =~= s.remove(x));
        assert(t2.to_set() =~= s.remove(x));
        lemma_sorted_entries_unique(t1, t2, s.remove(x));
        assert(r1 =~= r2) by {
            assert forall|i: int| 0 <= i < r1.len() implies r1[i] == r2[i] by {
                if i > 0 {
                    assert(r1[i] == t1[i - 1]);
                    assert(r2[i] == t2[i - 1]);
                }
            }
        }
    }
}

/// The routes this switch wants now, one per customer it can serve.
pub open spec fn desired_map(s: SwitchView) -> Map<u32, DesiredRoute> {
    let nbrs = sorted_entries(neighbor_entries(s.ports));
    Map::new(
        |c: u32| spec_route(s.switch_id, nbrs, s.local_customers, s.lsdb, c) is Some,
        |c: u32| spec_route(s.switch_id, nbrs, s.local_customers, s.lsdb, c)->0,
    )
}

/// Installing an exact host route for `customer`.
pub open spec fn install_action(entry_id: u64, customer: u32, port: u16) -> ActionView {
    ActionView::InstallTableEntry { table: T_ROUTE, entry_id, key: customer as u64, prefix_len: 32, port }
}

/// Deleting a route-table entry.
pub open spec fn delete_action(entry_id: u64) -> ActionView {
    ActionView::DeleteTableEntry { table: T_ROUTE, entry_id }
}

/// An installed route already forwards as desired.
pub open spec fn same_route(installed: InstalledRoute, desired: DesiredRoute) -> bool {
    installed.port == desired.port && installed.next_hop == desired.next_hop
}

/// Reconciling one customer's installed route with the desired one: a new
/// route is installed under the customer's own entry ID, a stale one deleted,
/// and a changed one deleted and then reinstalled under its entry ID; work
/// that does not fit the batch is left for later and marks the diff incomplete.
pub open spec fn diff_step(
    m: Map<u32, InstalledRoute>,
    b: BatchView,
    complete: bool,
    c: u32,
    desired: Map<u32, DesiredRoute>,
) -> (Map<u32, InstalledRoute>, BatchView, bool) {
    if !m.contains_key(c) {
        if !desired.contains_key(c) {
            (m, b, complete)
        } else if fits(b, INSTALL_ACTION_ESTIMATE as int) {
            let r = desired[c];
            (
                m.insert(c, InstalledRoute { entry_id: c as u64, port: r.port, next_hop: r.next_hop }),
                offered(b, install_action(c as u64, c, r.port), INSTALL_ACTION_ESTIMATE as int),
                complete,
            )
        } else {
            (m, b, false)
        }
    } else if !desired.contains_key(c) {
        if fits(b, DELETE_ACTION_ESTIMATE as int) {
            (m.remove(c), offered(b, delete_action(m[c].entry_id), DELETE_ACTION_ESTIMATE as int), complete)
        } else {
            (m, b, false)
        }
    } else {
        let old_route = m[c];
        let r = desired[c];
        if same_route(old_route, r) {
            (m, b, complete)
        } else if !fits(b, DELETE_ACTION_ESTIMATE + INSTALL_ACTION_ESTIMATE) {
            (m, b, false)
        } else {
            (
                m.insert(c, InstalledRoute { entry_id: old_route.entry_id, port: r.port, next_hop: r.next_hop }),
                offered(
                    offered(b, delete_action(old_route.entry_id), DELETE_ACTION_ESTIMATE as int),
                    install_action(old_route.entry_id, c, r.port),
                    INSTALL_ACTION_ESTIMATE as int,
                ),
                complete,
            )
        }
    }
}

/// Reconciling the customers of `cs` in order.
pub open spec fn route_diff(
    m: Map<u32, InstalledRoute>,
    b: BatchView,
    desired: Map<u32, DesiredRoute>,
    cs: Seq<u32>,
) -> (Map<u32, InstalledRoute>, BatchView, bool)
    decreases cs.len(),
{
    if cs.len() == 0 {
        (m, b, true)
    } else {
        let (m1, b1, c1) = route_diff(m, b, desired, cs.drop_last());
        diff_step(m1, b1, c1, cs.last(), desired)
    }
}

/// Every customer with an installed or a desired route, in ascending order.
pub open spec fn diff_customers(m: Map<u32, InstalledRoute>, desired: Map<u32, DesiredRoute>) -> Seq<u32> {
    sorted_ids(m.dom().union(desired.dom()))
}

/// The installed routes forward exactly as the desired ones: the same
/// customers, each through the same port and next hop.
pub open spec fn mirrors(m: Map<u32, InstalledRoute>, d: Map<u32, DesiredRoute>) -> bool {
    &&& m.dom() == d.dom()
    &&& forall|c: u32| #[trigger] d.contains_key(c) ==> same_route(m[c], d[c])
}

/// Every installed route sits in the table under its customer's address.
pub open spec fn keyed_by_customer(m: Map<u32, InstalledRoute>) -> bool {
    forall|c: u32| #[trigger] m.contains_key(c) ==> m[c].entry_id == c as u64
}

/// What reconciling a list of distinct customers does: customers off the list
/// keep their installed route, and when everything fitted each listed customer
/// ends up routed as desired.
#[verifier::spinoff_prover]
proof fn lemma_route_diff_facts(m: Map<u32, InstalledRoute>, b: BatchView, d: Map<u32, DesiredRoute>, cs: Seq<u32>)
    requires
        forall|i: int, j: int| 0 <= i < j < cs.len() ==> cs[i] < cs[j],
    ensures
        forall|c: u32| !cs.contains(c) ==> (#[trigger] route_diff(m, b, d, cs).0.contains_key(c) == m.contains_key(c)
            && (m.contains_key(c) ==> route_diff(m, b, d, cs).0[c] == m[c])),
        route_diff(m, b, d, cs).2 ==> forall|c: u32| #[trigger] cs.contains(c) ==> (
            route_diff(m, b, d, cs).0.contains_key(c) == d.contains_key(c)
            && (d.contains_key(c) ==> same_route(route_diff(m, b, d, cs).0[c], d[c]))),
    decreases cs.len(),
{
    let r = route_diff(m, b, d, cs);
    if cs.len() == 0 {
        assert(r == (m, b, true));
        assert forall|c: u32| !(#[trigger] cs.contains(c)) by {}
    } else {
        let init = cs.drop_last();
        let x = cs.last();
        lemma_route_diff_facts(m, b, d, init);
        let (m0, b0, ok0) = route_diff(m, b, d, init);
        let (m1, b1, ok) = diff_step(m0, b0, ok0, x, d);
        assert(r == (m1, b1, ok));
        assert forall|c: u32| c != x implies (#[trigger] m1.contains_key(c) == m0.contains_key(c)
            && (m0.contains_key(c) ==> m1[c] == m0[c])) by {}
        assert(ok ==> ok0);
        assert(ok ==> (m1.contains_key(x) == d.contains_key(x) && (d.contains_key(x) ==> same_route(m1[x], d[x]))));
        assert forall|c: u32| !cs.contains(c) implies (#[trigger] r.0.contains_key(c) == m.contains_key(c)
            && (m.contains_key(c) ==> r.0[c] == m[c])) by {
            assert(c != x) by {
                assert(cs[cs.len() - 1] == x);
            }
            if init.contains(c) {
                let k = init.index_of(c);
                assert(cs[k] == c);
            }
            assert(m0.contains_key(c) == m.contains_key(c));
            assert(m1.contains_key(c) == m0.contains_key(c));
        }
        assert forall|c: u32| r.2 && #[trigger] cs.contains(c) implies (r.0.contains_key(c) == d.contains_key(c)
            && (d.contains_key(c) ==> same_route(r.0[c], d[c]))) by {
            if c != x {
                let k = cs.index_of(c);
                assert(k < cs.len() - 1);
                assert(init[k] == c);
                assert(init.contains(c));
                assert(m1.contains_key(c) == m0.contains_key(c));
            }
        }
    }
}

/// Reconciling any customers keeps installed entries keyed by customer.
proof fn lemma_route_diff_keeps_keyed(m: Map<u32, InstalledRoute>, b: BatchView, d: Map<u32, DesiredRoute>, cs: Seq<u32>)
    requires
        keyed_by_customer(m),
    ensures
        keyed_by_customer(route_diff(m, b, d, cs).0),
    decreases cs.len(),
{
    if cs.len() > 0 {
        lemma_route_diff_keeps_keyed(m, b, d, cs.drop_last());
        let (m0, b0, ok0) = route_diff(m, b, d, cs.drop_last());
        let x = cs.last();
        let m1 = diff_step(m0, b0, ok0, x, d).0;
        assert forall|c: u32| #[trigger] m1.contains_key(c) implies m1[c].entry_id == c as u64 by {
            if c != x {
                assert(m0.contains_key(c));
            } else if m0.contains_key(x) {
                assert(m0[x].entry_id == x as u64);
            }
        }
    }
}

/// Reconciling installed routes that already mirror the desired ones does
/// nothing and reports completion.
proof fn lemma_route_diff_of_mirror(m: Map<u32, InstalledRoute>, b: BatchView, d: Map<u32, DesiredRoute>, cs: Seq<u32>)
    requires
        mirrors(m, d),
    ensures
        route_diff(m, b, d, cs) == (m, b, true),
    decreases cs.len(),
{
    if cs.len() > 0 {
        lemma_route_diff_of_mirror(m, b, d, cs.drop_last());
        let c = cs.last();
        assert(m.contains_key(c) <==> d.contains_key(c));
    }
}

/// A route diff that fitted its batch leaves the installed routes mirroring
/// the desired ones.
pub proof fn lemma_complete_diff_installs_desired(m: Map<u32, InstalledRoute>, b: BatchView, d: Map<u32, DesiredRoute>)
    requires
        m.dom().finite(),
        d.dom().finite(),
    ensures
        route_diff(m, b, d, diff_customers(m, d)).2 ==> mirrors(route_diff(m, b, d, diff_customers(m, d)).0, d),
{
    let all = m.dom().union(d.dom());
    crate::ordered::lemma_sorted_ids_exists(all);
    let cs = diff_customers(m, d);
    lemma_route_diff_facts(m, b, d, cs);
    let (m1, b1, ok) = route_diff(m, b, d, cs);
    if ok {
        assert forall|c: u32| #[trigger] m1.contains_key(c) <==> d.contains_key(c) by {
            if !cs.contains(c) {
                assert(!cs.to_set().contains(c));
                assert(!all.contains(c));
            }
        }
        assert(m1.dom() =~= d.dom());
        assert forall|c: u32| #[trigger] d.contains_key(c) implies same_route(m1[c], d[c]) by {
            assert(all.contains(c));
            assert(cs.to_set().contains(c));
        }
    }
}

/// Once the installed routes mirror the desired ones, a further diff emits no
/// action, changes nothing, and completes.
pub proof fn lemma_settled_diff_is_quiet(m: Map<u32, InstalledRoute>, b: BatchView, d: Map<u32, DesiredRoute>)
    requires
        mirrors(m, d),
    ensures
        route_diff(m, b, d, diff_customers(m, d)) == (m, b, true),
{
    lemma_route_diff_of_mirror(m, b, d, diff_customers(m, d));
}

/// A route diff keeps every installed entry under its customer's address.
pub proof fn lemma_diff_keeps_entries_keyed(m: Map<u32, InstalledRoute>, b: BatchView, d: Map<u32, DesiredRoute>)
    requires
        keyed_by_customer(m),
    ensures
        keyed_by_customer(route_diff(m, b, d, diff_customers(m, d)).0),
{
    lemma_route_diff_keeps_keyed(m, b, d, diff_customers(m, d));
}

/// A route-table action for customer `c`: a delete of the entry under `c`'s
/// address, or an install of the `/32` route for `c` under that entry.
pub open spec fn route_action_for(a: ActionView, c: u32) -> bool {
    match a {
        ActionView::DeleteTableEntry { table, entry_id } => table == T_ROUTE && entry_id == c as u64,
        ActionView::InstallTableEntry { table, entry_id, key, prefix_len, .. } => {
            table == T_ROUTE && entry_id == c as u64 && key == c as u64 && prefix_len == 32
        },
        _ => false,
    }
}

/// The table entry an action names (zero for other actions).
pub open spec fn entry_of(a: ActionView) -> u64 {
    match a {
        ActionView::DeleteTableEntry { entry_id, .. } => entry_id,
        ActionView::InstallTableEntry { entry_id, .. } => entry_id,
        _ => 0,
    }
}

/// `after` is `before` followed by route-table actions, each for a customer of `cs`.
pub open spec fn adds_route_actions(before: Seq<ActionView>, after: Seq<ActionView>, cs: Seq<u32>) -> bool {
    &&& before.len() <= after.len()
    &&& forall|i: int| 0 <= i < before.len() ==> after[i] == before[i]
    &&& forall|i: int| #![trigger after[i]] before.len() <= i < after.len() ==> {
        &&& cs.contains(entry_of(after[i]) as u32)
        &&& route_action_for(after[i], entry_of(after[i]) as u32)
    }
}

/// `after` is `before` followed by route-table actions for customer `c`.
spec fn adds_actions_for(before: Seq<ActionView>, after: Seq<ActionView>, c: u32) -> bool {
    &&& before.len() <= after.len()
    &&& forall|i: int| 0 <= i < before.len() ==> after[i] == before[i]
    &&& forall|i: int| before.len() <= i < after.len() ==> #[trigger] route_action_for(after[i], c)
}

proof fn lemma_offered_adds(b: BatchView, a: ActionView, e: int, c: u32)
    requires
        route_action_for(a, c),
    ensures
        adds_actions_for(b.actions, offered(b, a, e).actions, c),
{
    if fits(b, e) {
        let after = b.actions.push(a);
        assert(after[b.actions.len() as int] == a);
    }
}

proof fn lemma_diff_step_actions(m: Map<u32, InstalledRoute>, b: BatchView, complete: bool, x: u32, d: Map<u32, DesiredRoute>)
    requires
        keyed_by_customer(m),
    ensures
        adds_actions_for(b.actions, diff_step(m, b, complete, x, d).1.actions, x),
{
    if !m.contains_key(x) {
        if d.contains_key(x) && fits(b, INSTALL_ACTION_ESTIMATE as int) {
            lemma_offered_adds(b, install_action(x as u64, x, d[x].port), INSTALL_ACTION_ESTIMATE as int, x);
        }
    } else {
        assert(m[x].entry_id == x as u64);
        if !d.contains_key(x) {
            if fits(b, DELETE_ACTION_ESTIMATE as int) {
                lemma_offered_adds(b, delete_action(m[x].entry_id), DELETE_ACTION_ESTIMATE as int, x);
            }
        } else if !same_route(m[x], d[x]) && fits(b, DELETE_ACTION_ESTIMATE + INSTALL_ACTION_ESTIMATE) {
            let b1 = offered(b, delete_action(m[x].entry_id), DELETE_ACTION_ESTIMATE as int);
            lemma_offered_adds(b, delete_action(m[x].entry_id), DELETE_ACTION_ESTIMATE as int, x);
            lemma_offered_adds(b1, install_action(m[x].entry_id, x, d[x].port), INSTALL_ACTION_ESTIMATE as int, x);
            let b2 = offered(b1, install_action(m[x].entry_id, x, d[x].port), INSTALL_ACTION_ESTIMATE as int);
            assert forall|i: int| b.actions.len() <= i < b2.actions.len() implies #[trigger] route_action_for(b2.actions[i], x) by {
                if i < b1.actions.len() {
                    assert(b2.actions[i] == b1.actions[i]);
                }
            }
        }
    }
}

proof fn lemma_route_diff_actions(m: Map<u32, InstalledRoute>, b: BatchView, d: Map<u32, DesiredRoute>, cs: Seq<u32>)
    requires
        keyed_by_customer(m),
    ensures
        adds_route_actions(b.actions, route_diff(m, b, d, cs).1.actions, cs),
    decreases cs.len(),
{
    if cs.len() > 0 {
        let init = cs.drop_last();
        let x = cs.last();
        lemma_route_diff_actions(m, b, d, init);
        lemma_route_diff_keeps_keyed(m, b, d, init);
        let (m0, b0, ok0) = route_diff(m, b, d, init);
        let b1 = diff_step(m0, b0, ok0, x, d).1;
        assert(route_diff(m, b, d, cs).1 == b1);
        lemma_diff_step_actions(m0, b0, ok0, x, d);
        assert(cs.contains(x)) by {
            assert(cs[cs.len() - 1] == x);
        }
        assert forall|i: int| #![trigger b1.actions[i]] b.actions.len() <= i < b1.actions.len() implies
            cs.contains(entry_of(b1.actions[i]) as u32) && route_action_for(b1.actions[i], entry_of(b1.actions[i]) as u32) by {
            if i < b0.actions.len() {
                assert(b1.actions[i] == b0.actions[i]);
                let c = entry_of(b0.actions[i]) as u32;
                let k = init.index_of(c);
                assert(cs[k] == c);
            } else {
                assert(route_action_for(b1.actions[i], x));
            }
        }
        assert forall|i: int| 0 <= i < b.actions.len() implies b1.actions[i] == b.actions[i] by {
            assert(b1.actions[i] == b0.actions[i]);
        }
        assert(b.actions.len() <= b1.actions.len());
        assert(adds_route_actions(b.actions, b1.actions, cs));
    } else {
        assert(route_diff(m, b, d, cs).1 == b);
        assert(adds_route_actions(b.actions, b.actions, cs));
    }
}

/// Every action a route diff adds targets the route table under the address
/// of a customer it reconciles: deletes remove that entry, installs put the
/// customer's `/32` route under it; earlier actions stay as they were.
pub proof fn lemma_diff_actions_target_customer_entries(m: Map<u32, InstalledRoute>, b: BatchView, d: Map<u32, DesiredRoute>)
    requires
        keyed_by_customer(m),
    ensures
        adds_route_actions(b.actions, route_diff(m, b, d, diff_customers(m, d)).1.actions, diff_customers(m, d)),
{
    lemma_route_diff_actions(m, b, d, diff_customers(m, d));
}

/// Withdrawing routes only removes installed entries.
pub proof fn lemma_withdrawn_only_removes(m: Map<u32, InstalledRoute>, b: BatchView, cs: Seq<u32>)
    ensures
        forall|c: u32| #[trigger] withdrawn(m, b, cs).0.contains_key(c) ==> m.contains_key(c)
            && withdrawn(m, b, cs).0[c] == m[c],
    decreases cs.len(),
{
    if cs.len() > 0 {
        lemma_withdrawn_only_removes(m, b, cs.drop_last());
        let (m0, b0) = withdrawn(m, b, cs.drop_last());
        let m1 = withdrawn(m, b, cs).0;
        assert forall|c: u32| #[trigger] m1.contains_key(c) implies m.contains_key(c) && m1[c] == m[c] by {
            assert(m0.contains_key(c));
        }
    }
}

/// The standing facts of a switch's state: the LSDB holds this switch's own
/// record, at the local LSA sequence, and files every record under its origin;
/// and every installed route sits in the table under its customer's address.
pub open spec fn switch_wf(s: SwitchView) -> bool {
    &&& s.lsdb.contains_key(s.switch_id)
    &&& s.lsdb[s.switch_id].sequence == s.local_lsa_sequence
    &&& forall|o: u32| #[trigger] s.lsdb.contains_key(o) ==> s.lsdb[o].origin == o
    &&& keyed_by_customer(s.installed_routes)
}

/// No LSDB record of `s0` is lost or replaced by an older one in `s1`.
pub open spec fn lsdb_advanced(s0: SwitchView, s1: SwitchView) -> bool {
    forall|o: u32| #[trigger] s0.lsdb.contains_key(o) ==> s1.lsdb.contains_key(o)
        && s1.lsdb[o].sequence >= s0.lsdb[o].sequence
}

/// Recomputing routes whenever they may be stale, at once, and clearing the
/// dirty flag only when every route change fitted.
pub open spec fn recompute_step(s: SwitchView, b: BatchView) -> (SwitchView, BatchView) {
    if !s.routing_dirty {
        (s, b)
    } else {
        let d = desired_map(s);
        let (m, b1, complete) = route_diff(s.installed_routes, b, d, diff_customers(s.installed_routes, d));
        (SwitchView { installed_routes: m, routing_dirty: !complete, ..s }, b1)
    }
}

impl A1Switch {
    pub fn new(switch_id: u32, local_ports: Vec<u16>) -> (r: Self)
        ensures
            r@.switch_id == switch_id,
            r@.ports == Map::new(|p: u16| local_ports@.contains(p), |p: u16| unknown_port()),
            r@.hello_sequence == 0,
            r@.local_lsa_sequence == 0,
            r@.lsdb == map![switch_id => canonical_lsa(switch_id, 0, Seq::empty(), Seq::empty())],
            r@.local_customers == Map::<u32, u16>::empty(),
            r@.installed_routes == Map::<u32, InstalledRoute>::empty(),
            r@.routing_dirty,
            r@.last_routing_change_ns == 0,
            r@.sync_cursor == 0,
            switch_wf(r@),
    {
        let mut ports: BTreeMap<u16, PortState> = BTreeMap::new();
        let mut i: usize = 0;
        while i < local_ports.len()
            invariant
                i <= local_ports@.len(),
                ports_view(ports@) == Map::new(
                    |p: u16| local_ports@.take(i as int).contains(p),
                    |p: u16| unknown_port(),
                ),
            decreases local_ports@.len() - i,
        {
            let ghost before = ports@;
            ports.insert(local_ports[i], PortState::unknown());
            proof {
                let t = local_ports@.take(i as int);
                let t1 = local_ports@.take(i + 1);
                assert(t1 =~= t.push(local_ports@[i as int]));
                assert forall|p: u16| t1.contains(p) <==> (t.contains(p) || p == local_ports@[i as int]) by {
                    if t1.contains(p) && p != local_ports@[i as int] {
                        let k = t1.index_of(p);
                        assert(t[k] == p);
                    }
                    if t.contains(p) {
                        let k = t.index_of(p);
                        assert(t1[k] == p);
                    }
                    assert(t1[i as int] == local_ports@[i as int]);
                }
                assert(ports_view(ports@) =~= ports_view(before).insert(local_ports@[i as int], unknown_port()));
                assert(ports_view(ports@) =~= Map::new(|p: u16| t1.contains(p), |p: u16| unknown_port()));
            }
            i = i + 1;
        }
        assert(local_ports@.take(i as int) =~= local_ports@);
        let mut lsdb: BTreeMap<u32, Lsa> = BTreeMap::new();
        let no_ids: Vec<u32> = Vec::new();
        let first = Lsa::new(switch_id, 0, no_ids.clone(), no_ids);
        lsdb.insert(switch_id, first);
        let r = A1Switch {
            switch_id,
            ports,
            hello_sequence: 0,
            local_lsa_sequence: 0,
            lsdb,
            local_customers: BTreeMap::new(),
            installed_routes: BTreeMap::new(),
            routing_dirty: true,
            last_routing_change_ns: 0,
            sync_cursor: 0,
        };
        proof {
            assert(r@.lsdb =~= map![switch_id => canonical_lsa(switch_id, 0, Seq::empty(), Seq::empty())]);
        }
        r
    }

    pub fn control_source(&self) -> (r: u32)
        ensures
            r == control_source_of(self.switch_id),
    {
        CONTROL_SOURCE_BASE | (self.switch_id & 0xffff)
    }

    pub fn send_control(&self, port: u16, payload: Vec<u8>, batch: &mut ActionBatch) -> (r: bool)
        requires
            batch_wf(old(batch)@),
        ensures
            r == fits(old(batch)@, control_estimate(payload@.len() as int)),
            final(batch)@ == offered(
                old(batch)@,
                inject(self.switch_id, port, payload@),
                control_estimate(payload@.len() as int),
            ),
            batch_wf(final(batch)@),
            final(batch).limit == old(batch).limit,
    {
        let estimate = CONTROL_ACTION_OVERHEAD.saturating_add(payload.len());
        batch.try_push(
            Action::InjectPacket {
                port,
                src_ip: self.control_source(),
                dst_ip: CONTROL_DST,
                ip_proto: CONTROL_PROTO,
                ttl: 1,
                payload,
            },
            estimate,
        )
    }

    pub fn live_neighbor_ports(&self) -> (r: Vec<(u16, u32)>)
        ensures
            r@ == live_pairs(self@.ports),
            ascending_u16(ports_of(r@), live_ports(self@.ports)),
    {
        let ghost pv = self@.ports;
        let keys = keys_u16(&self.ports);
        let mut r: Vec<(u16, u32)> = Vec::new();
        let mut i: usize = 0;
        while i < keys.len()
            invariant
                pv == ports_view(self.ports@),
                i <= keys@.len(),
                ascending_u16(keys@, self.ports@.dom()),
                forall|a: int, b: int| 0 <= a < b < r@.len() ==> r@[a].0 < r@[b].0,
                forall|a: int| 0 <= a < r@.len() ==> #[trigger] r@[a].1 == neighbor_of(pv[r@[a].0].role),
                forall|p: u16| #[trigger] ports_of(r@).contains(p) <==> (
                    keys@.take(i as int).contains(p) && live_ports(pv).contains(p)),
                forall|a: int, k: int| 0 <= a < r@.len() && i <= k < keys@.len() ==> #[trigger] r@[a].0 < #[trigger] keys@[k],
            decreases keys@.len() - i,
        {
            let port = keys[i];
            assert(keys@.to_set().contains(port));
            let state = self.ports.get(&port).unwrap();
            let ghost before = r@;
            match state.role {
                PortRole::Switch { neighbor_id, live: true } => {
                    r.push((port, neighbor_id));
                },
                _ => {},
            }
            proof {
                let t = keys@.take(i as int);
                let t1 = keys@.take(i + 1);
                assert(t1 =~= t.push(port));
                assert(pv[port] == state@);
                if r@.len() > before.len() {
                    assert(ports_of(r@) =~= ports_of(before).push(port));
                    assert(live_ports(pv).contains(port));
                } else {
                    assert(r@ == before);
                    assert(!live_ports(pv).contains(port));
                }
                assert forall|a: int, b: int| 0 <= a < b < r@.len() implies r@[a].0 < r@[b].0 by {
                    if b == before.len() {
                        assert(r@[a] == before[a]);
                        assert(before[a].0 < keys@[i as int]);
                    } else {
                        assert(r@[a] == before[a] && r@[b] == before[b]);
                    }
                }
                assert forall|a: int| 0 <= a < r@.len() implies #[trigger] r@[a].1 == neighbor_of(pv[r@[a].0].role) by {
                    if a < before.len() {
                        assert(r@[a] == before[a]);
                    }
                }
                assert forall|a: int, k: int| 0 <= a < r@.len() && i + 1 <= k < keys@.len() implies #[trigger] r@[a].0 < #[trigger] keys@[k] by {
                    assert(keys@[i as int] < keys@[k]);
                    if a < before.len() {
                        assert(r@[a] == before[a]);
                        assert(before[a].0 < keys@[k]);
                    }
                }
                let m0 = ports_of(before);
                let m1 = ports_of(r@);
                assert forall|p: u16| #[trigger] m1.contains(p) <==> (t1.contains(p) && live_ports(pv).contains(p)) by {
                    if m1.contains(p) {
                        let a = m1.index_of(p);
                        if a < before.len() {
                            assert(m0[a] == p);
                            assert(m0.contains(p));
                            assert(t.contains(p));
                            let k = t.index_of(p);
                            assert(t1[k] == p);
                        } else {
                            assert(t1[i as int] == port);
                            assert(r@.len() > before.len());
                        }
                    }
                    if t1.contains(p) && live_ports(pv).contains(p) {
                        if p == port {
                            assert(m1[before.len() as int] == p);
                        } else {
                            let k = t1.index_of(p);
                            assert(t[k] == p);
                            assert(m0.contains(p));
                            let a = m0.index_of(p);
                            assert(m1[a] == p);
                        }
                    }
                }
            }
            i = i + 1;
        }
        proof {
            assert(keys@.take(i as int) =~= keys@);
            let m = ports_of(r@);
            assert(m.to_set() =~= live_ports(pv)) by {
                assert forall|p: u16| m.to_set().contains(p) <==> live_ports(pv).contains(p) by {
                    if live_ports(pv).contains(p) {
                        assert(keys@.to_set().contains(p));
                    }
                }
            }
            lemma_sorted_ports_is(m, live_ports(pv));
            assert forall|a: int| 0 <= a < r@.len() implies r@[a] == live_pairs(pv)[a] by {
                assert(m[a] == r@[a].0);
            }
            assert(r@ =~= live_pairs(pv));
        }
        r
    }


    pub fn flood_lsa(&self, lsa: &Lsa, except_port: Option<u16>, batch: &mut ActionBatch)
        requires
            batch_wf(old(batch)@),
        ensures
            final(batch)@ == flooded(old(batch)@, self@, lsa@, except_port),
            batch_wf(final(batch)@),
            final(batch).limit == old(batch).limit,
    {
        let payload = match encode_lsa(lsa) {
            Some(p) => p,
            None => {
                return;
            },
        };
        let live = self.live_neighbor_ports();
        let ghost ps = ports_of(live@);
        proof {
            lemma_sorted_ports_is(ps, live_ports(self@.ports));
        }
        let mut i: usize = 0;
        while i < live.len()
            invariant
                i <= live@.len(),
                ps == ports_of(live@),
                payload@ == lsa_bytes(lsa@),
                batch_wf(batch@),
                batch.limit == old(batch).limit,
                batch@ == offered_all(
                    old(batch)@,
                    flood_items(self.switch_id, ps.take(i as int), payload@, except_port),
                ),
            decreases live@.len() - i,
        {
            let (port, _) = live[i];
            let send = match except_port {
                Some(e) => e != port,
                None => true,
            };
            let ghost b_before = batch@;
            if send {
                let copy = copy_bytes(&payload);
                let _ = self.send_control(port, copy, batch);
            }
            proof {
                let t = ps.take(i as int);
                let t1 = ps.take(i + 1);
                assert(t1.drop_last() =~= t);
                assert(ps[i as int] == port);
                assert(t1.last() == port);
                let rest = flood_items(self.switch_id, t, payload@, except_port);
                let item = (inject(self.switch_id, port, payload@), control_estimate(payload@.len() as int));
                if send {
                    assert(flood_items(self.switch_id, t1, payload@, except_port) == rest.push(item));
                    assert(rest.push(item).drop_last() =~= rest);
                    assert(rest.push(item).last() == item);
                } else {
                    assert(flood_items(self.switch_id, t1, payload@, except_port) == rest);
                }
            }
            i = i + 1;
        }
        proof {
            assert(ps.take(i as int) =~= ps);
        }
    }

    pub fn sync_neighbor(&self, port: u16, batch: &mut ActionBatch)
        requires
            batch_wf(old(batch)@),
        ensures
            final(batch)@ == offered_until_full(
                old(batch)@,
                sync_items(self.switch_id, port, self@.lsdb, sorted_ids(self@.lsdb.dom())),
            ).0,
            batch_wf(final(batch)@),
            final(batch).limit == old(batch).limit,
    {
        let origins = keys_u32(&self.lsdb);
        let ghost os = origins@;
        proof {
            assert(self@.lsdb.dom() =~= self.lsdb@.dom());
            lemma_sorted_ids_is(os, self@.lsdb.dom());
        }
        let mut i: usize = 0;
        while i < origins.len()
            invariant
                i <= os.len(),
                os == origins@,
                ascending_u32(os, self.lsdb@.dom()),
                sorted_ids(self@.lsdb.dom()) == os,
                batch_wf(batch@),
                batch.limit == old(batch).limit,
                batch@ == offered_until_full(
                    old(batch)@,
                    sync_items(self.switch_id, port, self@.lsdb, os.take(i as int)),
                ).0,
                !offered_until_full(
                    old(batch)@,
                    sync_items(self.switch_id, port, self@.lsdb, os.take(i as int)),
                ).1,
            decreases os.len() - i,
        {
            let origin = origins[i];
            assert(os.to_set().contains(origin));
            let lsa = self.lsdb.get(&origin).unwrap();
            let ghost t = os.take(i as int);
            let ghost t1 = os.take(i + 1);
            let ghost rest = sync_items(self.switch_id, port, self@.lsdb, t);
            proof {
                assert(t1.drop_last() =~= t);
                assert(os[i as int] == origin);
                assert(t1.last() == origin);
                assert(self@.lsdb[origin] == lsa@);
            }
            match encode_lsa(lsa) {
                None => {
                    proof {
                        assert(sync_items(self.switch_id, port, self@.lsdb, t1) == rest);
                    }
                },
                Some(payload) => {
                    let ghost item = (inject(self.switch_id, port, payload@), control_estimate(payload@.len() as int));
                    proof {
                        assert(sync_items(self.switch_id, port, self@.lsdb, t1) == rest.push(item));
                        assert(rest.push(item).drop_last() =~= rest);
                        assert(rest.push(item).last() == item);
                    }
                    if !self.send_control(port, payload, batch) {
                        proof {
                            assert(offered_until_full(old(batch)@, sync_items(self.switch_id, port, self@.lsdb, t1)) == (batch@, true));
                            lemma_until_full_stays(old(batch)@, self.switch_id, port, self@.lsdb, os, (i + 1) as nat);
                            assert(sorted_ids(self@.lsdb.dom()) == os);
                        }
                        return;
                    }
                },
            }
            i = i + 1;
        }
        proof {
            assert(os.take(i as int) =~= os);
        }
    }

    pub fn mark_routing_change(&mut self, now_ns: u64)
        ensures
            final(self)@ == (SwitchView { routing_dirty: true, last_routing_change_ns: now_ns, ..old(self)@ }),
    {
        self.routing_dirty = true;
        self.last_routing_change_ns = now_ns;
    }

    /// Publish a new complete local snapshot only when local facts changed.
    pub fn refresh_local_lsa(&mut self, now_ns: u64, batch: &mut ActionBatch) -> (r: bool)
        requires
            batch_wf(old(batch)@),
        ensures
            r == !local_lsa_current(old(self)@),
            (final(self)@, final(batch)@) == refresh_step(old(self)@, now_ns, old(batch)@),
            r ==> final(self)@ == after_refresh(old(self)@, now_ns),
            r ==> final(batch)@ == flooded(old(batch)@, old(self)@, refreshed_lsa(old(self)@), None),
            !r ==> final(self)@ == old(self)@ && final(batch)@ == old(batch)@,
            batch_wf(final(batch)@),
            final(batch).limit == old(batch).limit,
    {
        let ghost s0 = self@;
        let live = self.live_neighbor_ports();
        let mut ids: Vec<u32> = Vec::new();
        let mut i: usize = 0;
        while i < live.len()
            invariant
                i <= live@.len(),
                live@ == live_pairs(s0.ports),
                ascending_u16(ports_of(live@), live_ports(s0.ports)),
                ids@ == live@.take(i as int).map_values(|e: (u16, u32)| e.1),
            decreases live@.len() - i,
        {
            ids.push(live[i].1);
            proof {
                assert(live@.take(i + 1) =~= live@.take(i as int).push(live@[i as int]));
                assert(ids@ =~= live@.take(i + 1).map_values(|e: (u16, u32)| e.1));
            }
            i = i + 1;
        }
        let neighbors = crate::protocol::sorted_unique(&ids, None);
        proof {
            assert(live@.take(i as int) =~= live@);
            let ps = ports_of(live@);
            lemma_sorted_ports_is(ps, live_ports(s0.ports));
            assert forall|n: u32| ids@.to_set().contains(n) <==> live_neighbor_ids(s0.ports).contains(n) by {
                if ids@.contains(n) {
                    let k = ids@.index_of(n);
                    assert(live@[k] == live_pairs(s0.ports)[k]);
                    assert(ps.to_set().contains(ps[k]));
                    assert(live_ports(s0.ports).contains(ps[k]) && neighbor_of(s0.ports[ps[k]].role) == n);
                }
                if live_neighbor_ids(s0.ports).contains(n) {
                    let p = choose|p: u16| #[trigger] live_ports(s0.ports).contains(p) && neighbor_of(s0.ports[p].role) == n;
                    assert(ps.to_set().contains(p));
                    let k = ps.index_of(p);
                    assert(live@[k] == live_pairs(s0.ports)[k]);
                    assert(ids@[k] == n);
                }
            }
            assert(ids@.to_set() =~= live_neighbor_ids(s0.ports));
            lemma_sorted_ids_is(neighbors@, live_neighbor_ids(s0.ports));
        }
        let customers = keys_u32(&self.local_customers);
        proof {
            lemma_sorted_ids_is(customers@, s0.local_customers.dom());
        }
        let unchanged = match self.lsdb.get(&self.switch_id) {
            Some(current) => same_ids(&current.neighbors, &neighbors) && same_ids(&current.customers, &customers),
            None => false,
        };
        if unchanged {
            return false;
        }
        self.local_lsa_sequence = self.local_lsa_sequence.saturating_add(1);
        let lsa = Lsa::new(self.switch_id, self.local_lsa_sequence, neighbors, customers);
        self.lsdb.insert(self.switch_id, lsa.duplicate());
        self.mark_routing_change(now_ns);
        proof {
            assert(self@.lsdb =~= s0.lsdb.insert(s0.switch_id, refreshed_lsa(s0)));
            assert(self@ == after_refresh(s0, now_ns));
            assert(self@.ports == s0.ports);
        }
        self.flood_lsa(&lsa, None, batch);
        true
    }

    pub fn remove_local_customers_on_port(&mut self, port: u16) -> (r: bool)
        ensures
            r == exists|c: u32| #[trigger] old(self)@.local_customers.contains_key(c) && old(self)@.local_customers[c] == port,
            final(self)@ == (SwitchView {
                local_customers: old(self)@.local_customers.restrict(
                    Set::new(|c: u32| old(self)@.local_customers.contains_key(c) && old(self)@.local_customers[c] != port),
                ),
                ..old(self)@
            }),
    {
        let ghost m0 = self.local_customers@;
        let keys = keys_u32(&self.local_customers);
        let mut removed: Vec<u32> = Vec::new();
        let mut i: usize = 0;
        while i < keys.len()
            invariant
                i <= keys@.len(),
                ascending_u32(keys@, m0.dom()),
                self.local_customers@ == m0,
                forall|c: u32| #[trigger] removed@.contains(c) <==> (keys@.take(i as int).contains(c) && m0[c] == port),
            decreases keys@.len() - i,
        {
            let c = keys[i];
            assert(keys@.to_set().contains(c));
            let p = *self.local_customers.get(&c).unwrap();
            assert(m0[c] == p);
            let ghost before = removed@;
            if p == port {
                removed.push(c);
            }
            proof {
                let t = keys@.take(i as int);
                let t1 = keys@.take(i + 1);
                assert(t1 =~= t.push(c));
                assert forall|x: u32| #[trigger] removed@.contains(x) <==> (t1.contains(x) && m0[x] == port) by {
                    if t1.contains(x) && x != c {
                        let k = t1.index_of(x);
                        assert(t[k] == x);
                    }
                    if t.contains(x) {
                        let k = t.index_of(x);
                        assert(t1[k] == x);
                    }
                    assert(t1[i as int] == c);
                    if removed@.contains(x) && x != c {
                        let k = removed@.index_of(x);
                        assert(before[k] == x);
                    }
                    if before.contains(x) {
                        let k = before.index_of(x);
                        assert(removed@[k] == x);
                    }
                    if p == port && x == c {
                        assert(removed@[removed@.len() - 1] == c);
                    }
                }
            }
            i = i + 1;
        }
        proof {
            assert(keys@.take(i as int) =~= keys@);
        }
        let mut j: usize = 0;
        while j < removed.len()
            invariant
                j <= removed@.len(),
                forall|c: u32| #[trigger] removed@.contains(c) <==> (m0.contains_key(c) && m0[c] == port),
                self@ == (SwitchView { local_customers: self@.local_customers, ..old(self)@ }),
                self.local_customers@ == m0.restrict(
                    Set::new(|c: u32| m0.contains_key(c) && !(removed@.take(j as int).contains(c))),
                ),
            decreases removed@.len() - j,
        {
            let c = removed[j];
            self.local_customers.remove(&c);
            proof {
                let t = removed@.take(j as int);
                let t1 = removed@.take(j + 1);
                assert(t1 =~= t.push(c));
                assert forall|x: u32| t1.contains(x) <==> (t.contains(x) || x == c) by {
                    if t1.contains(x) && x != c {
                        let k = t1.index_of(x);
                        assert(t[k] == x);
                    }
                    if t.contains(x) {
                        let k = t.index_of(x);
                        assert(t1[k] == x);
                    }
                    assert(t1[j as int] == c);
                }
                assert(self.local_customers@ =~= m0.restrict(
                    Set::new(|x: u32| m0.contains_key(x) && !(t1.contains(x))),
                ));
            }
            j = j + 1;
        }
        proof {
            assert(removed@.take(j as int) =~= removed@);
            assert(self.local_customers@ =~= m0.restrict(
                Set::new(|c: u32| m0.contains_key(c) && m0[c] != port),
            ));
            assert(self@ =~= (SwitchView {
                local_customers: m0.restrict(Set::new(|c: u32| m0.contains_key(c) && m0[c] != port)),
                ..old(self)@
            }));
            if removed@.len() > 0 {
                assert(removed@.contains(removed@[0]));
            }
            if exists|c: u32| #[trigger] m0.contains_key(c) && m0[c] == port {
                let c = choose|c: u32| #[trigger] m0.contains_key(c) && m0[c] == port;
                assert(removed@.contains(c));
            }
        }
        removed.len() > 0
    }

    pub fn withdraw_installed_routes_on_port(&mut self, port: u16, batch: &mut ActionBatch)
        requires
            batch_wf(old(batch)@),
        ensures
            ({
                let (m, b) = withdrawn(
                    old(self)@.installed_routes,
                    old(batch)@,
                    sorted_ids(routes_on_port(old(self)@.installed_routes, port)),
                );
                &&& final(self)@ == (SwitchView { installed_routes: m, ..old(self)@ })
                &&& final(batch)@ == b
            }),
            batch_wf(final(batch)@),
            final(batch).limit == old(batch).limit,
    {
        let ghost m0 = self.installed_routes@;
        let keys = keys_u32(&self.installed_routes);
        let mut affected: Vec<u32> = Vec::new();
        let mut i: usize = 0;
        while i < keys.len()
            invariant
                i <= keys@.len(),
                ascending_u32(keys@, m0.dom()),
                self.installed_routes@ == m0,
                forall|a: int, b: int| 0 <= a < b < affected@.len() ==> affected@[a] < affected@[b],
                forall|a: int, k: int| 0 <= a < affected@.len() && i <= k < keys@.len() ==> #[trigger] affected@[a] < #[trigger] keys@[k],
                forall|c: u32| #[trigger] affected@.contains(c) <==> (keys@.take(i as int).contains(c) && m0[c].port == port),
            decreases keys@.len() - i,
        {
            let c = keys[i];
            assert(keys@.to_set().contains(c));
            let route = *self.installed_routes.get(&c).unwrap();
            let ghost before = affected@;
            if route.port == port {
                affected.push(c);
            }
            proof {
                let t = keys@.take(i as int);
                let t1 = keys@.take(i + 1);
                assert(t1 =~= t.push(c));
                assert forall|x: u32| #[trigger] affected@.contains(x) <==> (t1.contains(x) && m0[x].port == port) by {
                    if t1.contains(x) && x != c {
                        let k = t1.index_of(x);
                        assert(t[k] == x);
                    }
                    if t.contains(x) {
                        let k = t.index_of(x);
                        assert(t1[k] == x);
                    }
                    assert(t1[i as int] == c);
                    if affected@.contains(x) && x != c {
                        let k = affected@.index_of(x);
                        assert(before[k] == x);
                    }
                    if before.contains(x) {
                        let k = before.index_of(x);
                        assert(affected@[k] == x);
                    }
                    if route.port == port && x == c {
                        assert(affected@[affected@.len() - 1] == c);
                    }
                }
                assert forall|a: int, k: int| 0 <= a < affected@.len() && i + 1 <= k < keys@.len() implies #[trigger] affected@[a] < #[trigger] keys@[k] by {
                    assert(keys@[i as int] < keys@[k]);
                    if a < before.len() {
                        assert(affected@[a] == before[a]);
                    }
                }
                assert forall|a: int, b: int| 0 <= a < b < affected@.len() implies affected@[a] < affected@[b] by {
                    if b < before.len() {
                        assert(affected@[a] == before[a] && affected@[b] == before[b]);
                    } else {
                        assert(affected@[a] == before[a]);
                    }
                }
            }
            i = i + 1;
        }
        proof {
            assert(keys@.take(i as int) =~= keys@);
            assert(affected@.to_set() =~= routes_on_port(m0, port)) by {
                assert forall|c: u32| affected@.to_set().contains(c) <==> routes_on_port(m0, port).contains(c) by {
                    if routes_on_port(m0, port).contains(c) {
                        assert(keys@.to_set().contains(c));
                    }
                }
            }
            lemma_sorted_ids_is(affected@, routes_on_port(m0, port));
        }
        let ghost b0 = batch@;
        proof {
            assert forall|a: int| 0 <= a < affected@.len() implies m0.contains_key(#[trigger] affected@[a]) by {
                assert(affected@.contains(affected@[a]));
            }
            assert(affected@.take(0) =~= Seq::<u32>::empty());
        }
        let mut j: usize = 0;
        while j < affected.len()
            invariant
                j <= affected@.len(),
                forall|a: int, b: int| 0 <= a < b < affected@.len() ==> affected@[a] < affected@[b],
                forall|a: int| 0 <= a < affected@.len() ==> m0.contains_key(#[trigger] affected@[a]),
                batch_wf(batch@),
                batch.limit == old(batch).limit,
                self@ == (SwitchView { installed_routes: self@.installed_routes, ..old(self)@ }),
                (self.installed_routes@, batch@) == withdrawn(m0, b0, affected@.take(j as int)),
                forall|a: int| j <= a < affected@.len() ==> self.installed_routes@.contains_key(#[trigger] affected@[a])
                    && self.installed_routes@[affected@[a]] == m0[affected@[a]],
            decreases affected@.len() - j,
        {
            let c = affected[j];
            let route = *self.installed_routes.get(&c).unwrap();
            let ghost mb = self.installed_routes@;
            if batch.try_push(Action::DeleteTableEntry { table: T_ROUTE, entry_id: route.entry_id }, DELETE_ACTION_ESTIMATE) {
                self.installed_routes.remove(&c);
            }
            proof {
                let t1 = affected@.take(j + 1);
                assert(t1.drop_last() =~= affected@.take(j as int));
                assert(affected@[j as int] == c);
                assert(t1.last() == c);
                assert forall|a: int| j + 1 <= a < affected@.len() implies self.installed_routes@.contains_key(#[trigger] affected@[a])
                    && self.installed_routes@[affected@[a]] == m0[affected@[a]] by {
                    assert(affected@[a] != c);
                }
            }
            j = j + 1;
        }
        proof {
            assert(affected@.take(j as int) =~= affected@);
            assert(self@ =~= (SwitchView { installed_routes: self.installed_routes@, ..old(self)@ }));
        }
    }


    pub fn handle_hello(&mut self, now_ns: u64, ingress_port: u16, hello: Hello, batch: &mut ActionBatch)
        requires
            batch_wf(old(batch)@),
        ensures
            hello_ignored(old(self)@, ingress_port, hello) ==> final(self)@ == old(self)@
                && final(batch)@ == old(batch)@,
            !hello_ignored(old(self)@, ingress_port, hello) ==> (final(self)@, final(batch)@)
                == hello_step(old(self)@, now_ns, ingress_port, hello, old(batch)@),
            batch_wf(final(batch)@),
            final(batch).limit == old(batch).limit,
    {
        if hello.sender == self.switch_id || !self.ports.contains_key(&ingress_port) {
            return;
        }
        let ghost s0 = self@;
        let ghost b0 = batch@;
        let mut state = self.ports.remove(&ingress_port).unwrap();
        let old_role = state.role;
        match state.role {
            PortRole::Switch { neighbor_id, .. } => {
                let stale = neighbor_id == hello.sender && match state.last_hello_sequence {
                    Some(last) => hello.sequence <= last,
                    None => false,
                };
                if stale {
                    self.ports.insert(ingress_port, state);
                    proof {
                        assert(self.ports@ =~= old(self).ports@);
                    }
                    return;
                }
            },
            _ => {},
        }
        let local_changed = match state.role {
            PortRole::Unknown => true,
            PortRole::Customer => true,
            PortRole::Switch { neighbor_id, live } => neighbor_id != hello.sender || !live,
        };
        let was_customer = match state.role {
            PortRole::Customer => true,
            _ => false,
        };
        state.role = PortRole::Switch { neighbor_id: hello.sender, live: true };
        state.last_hello_ns = Some(now_ns);
        state.last_hello_sequence = Some(hello.sequence);
        state.first_data_ns = None;
        state.candidate_customers.clear();
        self.ports.insert(ingress_port, state);
        let ghost s1 = SwitchView {
            ports: s0.ports.insert(ingress_port, fresh_switch_port(hello.sender, now_ns, hello.sequence)),
            ..s0
        };
        proof {
            assert(ports_view(self.ports@) =~= s1.ports);
            assert(self@ =~= s1);
        }
        if was_customer {
            let _ = self.remove_local_customers_on_port(ingress_port);
            self.withdraw_installed_routes_on_port(ingress_port, batch);
            proof {
                assert(self@ =~= customer_port_withdrawal(s1, ingress_port, b0).0);
            }
        }
        if local_changed {
            let _ = self.refresh_local_lsa(now_ns, batch);
            // Reply immediately and seed the recovered/new link with our DB.
            let hello_payload = encode_hello(self.switch_id, self.hello_sequence);
            let _ = self.send_control(ingress_port, hello_payload, batch);
            self.sync_neighbor(ingress_port, batch);
        }
    }

    pub fn handle_lsa(&mut self, now_ns: u64, ingress_port: u16, lsa: Lsa, batch: &mut ActionBatch)
        requires
            batch_wf(old(batch)@),
        ensures
            lsa_accepted(old(self)@, ingress_port, lsa@) ==> final(self)@ == (SwitchView {
                lsdb: old(self)@.lsdb.insert(lsa.origin, lsa@),
                routing_dirty: true,
                last_routing_change_ns: now_ns,
                ..old(self)@
            }) && final(batch)@ == flooded(old(batch)@, old(self)@, lsa@, Some(ingress_port)),
            !lsa_accepted(old(self)@, ingress_port, lsa@) ==> final(self)@ == old(self)@
                && final(batch)@ == old(batch)@,
            batch_wf(final(batch)@),
            final(batch).limit == old(batch).limit,
    {
        let valid_ingress = match self.ports.get(&ingress_port) {
            Some(state) => match state.role {
                PortRole::Switch { live: true, .. } => true,
                _ => false,
            },
            None => false,
        };
        if !valid_ingress || lsa.origin == self.switch_id {
            return;
        }
        let stale = match self.lsdb.get(&lsa.origin) {
            Some(known) => known.sequence >= lsa.sequence,
            None => false,
        };
        if stale {
            return;
        }
        let ghost s0 = self@;
        self.lsdb.insert(lsa.origin, lsa.duplicate());
        self.mark_routing_change(now_ns);
        proof {
            assert(self@.lsdb =~= s0.lsdb.insert(lsa.origin, lsa@));
            assert(self@ =~= (SwitchView {
                lsdb: s0.lsdb.insert(lsa.origin, lsa@),
                routing_dirty: true,
                last_routing_change_ns: now_ns,
                ..s0
            }));
        }
        self.flood_lsa(&lsa, Some(ingress_port), batch);
    }

    pub fn handle_customer_punt(&mut self, now_ns: u64, ingress_port: u16, source: u32, batch: &mut ActionBatch)
        requires
            batch_wf(old(batch)@),
        ensures
            (final(self)@, final(batch)@) == customer_punt_step(old(self)@, now_ns, ingress_port, source, old(batch)@),
            batch_wf(final(batch)@),
            final(batch).limit == old(batch).limit,
    {
        if source == 0 {
            return;
        }
        if !self.ports.contains_key(&ingress_port) {
            return;
        }
        let ghost s0 = self@;
        let mut state = self.ports.remove(&ingress_port).unwrap();
        let ghost p0 = state@;
        let mut newly_confirmed = false;
        match state.role {
            PortRole::Unknown => {
                if state.first_data_ns.is_none() {
                    state.first_data_ns = Some(now_ns);
                }
                state.candidate_customers.insert(source);
            },
            PortRole::Customer => {
                state.candidate_customers.insert(source);
                newly_confirmed = self.local_customers.insert(source, ingress_port).is_none();
            },
            PortRole::Switch { .. } => {},
        }
        proof {
            assert(state@ =~= port_after_data(p0, now_ns, source));
        }
        self.ports.insert(ingress_port, state);
        proof {
            assert(ports_view(self.ports@) =~= s0.ports.insert(ingress_port, port_after_data(p0, now_ns, source)));
            assert(self@ =~= customer_punt_step(s0, now_ns, ingress_port, source, batch@).0 || newly_confirmed);
        }
        if newly_confirmed {
            let _ = self.refresh_local_lsa(now_ns, batch);
        }
    }


    pub fn expire_neighbors(&mut self, now_ns: u64) -> (r: Vec<u16>)
        ensures
            ascending_u16(r@, expired_ports(old(self)@.ports, now_ns)),
            final(self)@ == (SwitchView { ports: after_expiry(old(self)@.ports, now_ns), ..old(self)@ }),
    {
        let ghost s0 = self@;
        let keys = keys_u16(&self.ports);
        assert(s0.ports.dom() =~= self.ports@.dom());
        let mut expired: Vec<u16> = Vec::new();
        let mut i: usize = 0;
        while i < keys.len()
            invariant
                i <= keys@.len(),
                ascending_u16(keys@, s0.ports.dom()),
                self@ == (SwitchView { ports: self@.ports, ..s0 }),
                self@.ports == Map::new(
                    |p: u16| s0.ports.contains_key(p),
                    |p: u16| if keys@.take(i as int).contains(p) { after_expiry(s0.ports, now_ns)[p] } else { s0.ports[p] },
                ),
                forall|a: int, b: int| 0 <= a < b < expired@.len() ==> expired@[a] < expired@[b],
                forall|a: int, k: int| 0 <= a < expired@.len() && i <= k < keys@.len() ==> #[trigger] expired@[a] < #[trigger] keys@[k],
                forall|p: u16| #[trigger] expired@.contains(p) <==> (keys@.take(i as int).contains(p) && expired_ports(s0.ports, now_ns).contains(p)),
            decreases keys@.len() - i,
        {
            let port = keys[i];
            assert(keys@.to_set().contains(port));
            assert(self@.ports.dom() =~= self.ports@.dom());
            assert(self@.ports[port] == s0.ports[port]) by {
                if keys@.take(i as int).contains(port) {
                    let k = keys@.take(i as int).index_of(port);
                    assert(keys@[k] == port);
                }
            }
            let state = self.ports.get(&port).unwrap();
            let should_expire = match state.role {
                PortRole::Switch { live: true, .. } => match state.last_hello_ns {
                    Some(last) => now_ns.saturating_sub(last) >= NEIGHBOR_DEAD_NS,
                    None => false,
                },
                _ => false,
            };
            let ghost before = expired@;
            let ghost pb = self@.ports;
            if should_expire {
                let mut st = self.ports.remove(&port).unwrap();
                match st.role {
                    PortRole::Switch { neighbor_id, .. } => {
                        st.role = PortRole::Switch { neighbor_id, live: false };
                    },
                    _ => {},
                }
                self.ports.insert(port, st);
                expired.push(port);
                proof {
                    assert(ports_view(self.ports@) =~= pb.insert(port, after_expiry(s0.ports, now_ns)[port]));
                }
            }
            proof {
                let t = keys@.take(i as int);
                let t1 = keys@.take(i + 1);
                assert(t1 =~= t.push(port));
                assert(should_expire == expires(s0.ports[port], now_ns));
                assert forall|p: u16| t1.contains(p) <==> (t.contains(p) || p == port) by {
                    if t1.contains(p) && p != port {
                        let k = t1.index_of(p);
                        assert(t[k] == p);
                    }
                    if t.contains(p) {
                        let k = t.index_of(p);
                        assert(t1[k] == p);
                    }
                    assert(t1[i as int] == port);
                }
                assert(self@.ports =~= Map::new(
                    |p: u16| s0.ports.contains_key(p),
                    |p: u16| if t1.contains(p) { after_expiry(s0.ports, now_ns)[p] } else { s0.ports[p] },
                ));
                assert forall|p: u16| #[trigger] expired@.contains(p) <==> (t1.contains(p) && expired_ports(s0.ports, now_ns).contains(p)) by {
                    if expired@.contains(p) && p != port {
                        let k = expired@.index_of(p);
                        assert(before[k] == p);
                    }
                    if before.contains(p) {
                        let k = before.index_of(p);
                        assert(expired@[k] == p);
                    }
                    if should_expire && p == port {
                        assert(expired@[expired@.len() - 1] == port);
                    }
                }
                assert forall|a: int, k: int| 0 <= a < expired@.len() && i + 1 <= k < keys@.len() implies #[trigger] expired@[a] < #[trigger] keys@[k] by {
                    assert(keys@[i as int] < keys@[k]);
                    if a < before.len() {
                        assert(expired@[a] == before[a]);
                    }
                }
                assert forall|a: int, b: int| 0 <= a < b < expired@.len() implies expired@[a] < expired@[b] by {
                    if b < before.len() {
                        assert(expired@[a] == before[a] && expired@[b] == before[b]);
                    } else {
                        assert(expired@[a] == before[a]);
                    }
                }
            }
            i = i + 1;
        }
        proof {
            assert(keys@.take(i as int) =~= keys@);
            assert(self@.ports =~= after_expiry(s0.ports, now_ns)) by {
                assert forall|p: u16| s0.ports.contains_key(p) implies keys@.contains(p) by {
                    assert(keys@.to_set().contains(p));
                }
            }
            assert(expired@.to_set() =~= expired_ports(s0.ports, now_ns)) by {
                assert forall|p: u16| expired_ports(s0.ports, now_ns).contains(p) implies keys@.contains(p) by {
                    assert(keys@.to_set().contains(p));
                }
            }
            assert(self@ =~= (SwitchView { ports: after_expiry(s0.ports, now_ns), ..s0 }));
        }
        expired
    }

    pub fn classify_customer_ports(&mut self, now_ns: u64) -> (r: bool)
        ensures
            ({
                let (m, changed) = learn_all(
                    old(self)@.local_customers,
                    learned_pairs(old(self)@.ports, now_ns, sorted_ports(old(self)@.ports.dom())),
                );
                &&& final(self)@ == (SwitchView {
                    ports: after_classify(old(self)@.ports, now_ns),
                    local_customers: m,
                    ..old(self)@
                })
                &&& r == changed
            }),
    {
        let ghost s0 = self@;
        let keys = keys_u16(&self.ports);
        proof {
            assert(s0.ports.dom() =~= self.ports@.dom());
            lemma_sorted_ports_is(keys@, s0.ports.dom());
        }
        let mut learned: Vec<(u32, u16)> = Vec::new();
        let mut i: usize = 0;
        while i < keys.len()
            invariant
                i <= keys@.len(),
                ascending_u16(keys@, s0.ports.dom()),
                self@ == (SwitchView { ports: self@.ports, ..s0 }),
                self@.ports == Map::new(
                    |p: u16| s0.ports.contains_key(p),
                    |p: u16| if keys@.take(i as int).contains(p) { after_classify(s0.ports, now_ns)[p] } else { s0.ports[p] },
                ),
                learned@ == learned_pairs(s0.ports, now_ns, keys@.take(i as int)),
            decreases keys@.len() - i,
        {
            let port = keys[i];
            assert(keys@.to_set().contains(port));
            assert(self@.ports.dom() =~= self.ports@.dom());
            assert(self@.ports[port] == s0.ports[port]) by {
                if keys@.take(i as int).contains(port) {
                    let k = keys@.take(i as int).index_of(port);
                    assert(keys@[k] == port);
                }
            }
            let state = self.ports.get(&port).unwrap();
            let ready = match state.role {
                PortRole::Unknown => match state.first_data_ns {
                    Some(first) => now_ns.saturating_sub(first) >= PORT_CLASSIFY_NS,
                    None => false,
                },
                _ => false,
            } && !state.candidate_customers.is_empty();
            let ghost pb = self@.ports;
            let ghost lb = learned@;
            if ready {
                let mut st = self.ports.remove(&port).unwrap();
                st.role = PortRole::Customer;
                let customers = elements_u32(&st.candidate_customers);
                self.ports.insert(port, st);
                proof {
                    assert(ports_view(self.ports@) =~= pb.insert(port, after_classify(s0.ports, now_ns)[port]));
                    lemma_sorted_ids_is(customers@, s0.ports[port].candidate_customers);
                }
                let mut j: usize = 0;
                while j < customers.len()
                    invariant
                        j <= customers@.len(),
                        learned@ == lb + customers@.take(j as int).map_values(|c: u32| (c, port)),
                    decreases customers@.len() - j,
                {
                    learned.push((customers[j], port));
                    proof {
                        assert(customers@.take(j + 1) =~= customers@.take(j as int).push(customers@[j as int]));
                        assert(learned@ =~= lb + customers@.take(j + 1).map_values(|c: u32| (c, port)));
                    }
                    j = j + 1;
                }
                proof {
                    assert(customers@.take(j as int) =~= customers@);
                }
            }
            proof {
                let t = keys@.take(i as int);
                let t1 = keys@.take(i + 1);
                assert(t1 =~= t.push(port));
                assert(t1.drop_last() =~= t);
                assert(ready == ready_for_customers(s0.ports[port], now_ns));
                assert forall|p: u16| t1.contains(p) <==> (t.contains(p) || p == port) by {
                    if t1.contains(p) && p != port {
                        let k = t1.index_of(p);
                        assert(t[k] == p);
                    }
                    if t.contains(p) {
                        let k = t.index_of(p);
                        assert(t1[k] == p);
                    }
                    assert(t1[i as int] == port);
                }
                assert(self@.ports =~= Map::new(
                    |p: u16| s0.ports.contains_key(p),
                    |p: u16| if t1.contains(p) { after_classify(s0.ports, now_ns)[p] } else { s0.ports[p] },
                ));
            }
            i = i + 1;
        }
        proof {
            assert(keys@.take(i as int) =~= keys@);
            assert(self@.ports =~= after_classify(s0.ports, now_ns)) by {
                assert forall|p: u16| s0.ports.contains_key(p) implies keys@.contains(p) by {
                    assert(keys@.to_set().contains(p));
                }
            }
        }
        let ghost pairs = learned@;
        let mut changed = false;
        let mut k: usize = 0;
        while k < learned.len()
            invariant
                k <= pairs.len(),
                pairs == learned@,
                self@ == (SwitchView { local_customers: self@.local_customers, ports: after_classify(s0.ports, now_ns), ..s0 }),
                (self@.local_customers, changed) == learn_all(s0.local_customers, pairs.take(k as int)),
            decreases pairs.len() - k,
        {
            let (customer, port) = learned[k];
            let ghost mb = self@.local_customers;
            let previous = self.local_customers.insert(customer, port);
            let differs = match previous {
                Some(p) => p != port,
                None => true,
            };
            if differs {
                changed = true;
            }
            proof {
                let t1 = pairs.take(k + 1);
                assert(t1.drop_last() =~= pairs.take(k as int));
                assert(t1.last() == (customer, port));
            }
            k = k + 1;
        }
        proof {
            assert(pairs.take(k as int) =~= pairs);
        }
        changed
    }

    pub fn emit_hellos(&mut self, batch: &mut ActionBatch)
        requires
            batch_wf(old(batch)@),
        ensures
            final(self)@ == (SwitchView { hello_sequence: sat_inc64(old(self)@.hello_sequence), ..old(self)@ }),
            final(batch)@ == offered_all(
                old(batch)@,
                hello_items(
                    old(self)@.switch_id,
                    old(self)@.ports,
                    sorted_ports(old(self)@.ports.dom()),
                    hello_bytes(old(self)@.switch_id, sat_inc64(old(self)@.hello_sequence)),
                ),
            ),
            batch_wf(final(batch)@),
            final(batch).limit == old(batch).limit,
    {
        self.hello_sequence = self.hello_sequence.saturating_add(1);
        let payload = encode_hello(self.switch_id, self.hello_sequence);
        let keys = keys_u16(&self.ports);
        let ghost ps = keys@;
        proof {
            assert(self@.ports.dom() =~= self.ports@.dom());
            lemma_sorted_ports_is(ps, self@.ports.dom());
        }
        let mut i: usize = 0;
        while i < keys.len()
            invariant
                i <= ps.len(),
                ps == keys@,
                ascending_u16(ps, self@.ports.dom()),
                payload@ == hello_bytes(self.switch_id, self.hello_sequence),
                batch_wf(batch@),
                batch.limit == old(batch).limit,
                batch@ == offered_all(old(batch)@, hello_items(self.switch_id, self@.ports, ps.take(i as int), payload@)),
            decreases ps.len() - i,
        {
            let port = keys[i];
            assert(ps.to_set().contains(port));
            assert(self@.ports.dom() =~= self.ports@.dom());
            let state = self.ports.get(&port).unwrap();
            let is_customer = match state.role {
                PortRole::Customer => true,
                _ => false,
            };
            proof {
                let t = ps.take(i as int);
                let t1 = ps.take(i + 1);
                assert(t1.drop_last() =~= t);
                assert(ps[i as int] == port);
                assert(t1.last() == port);
                assert(self@.ports[port] == state@);
                let rest = hello_items(self.switch_id, self@.ports, t, payload@);
                let item = (inject(self.switch_id, port, payload@), control_estimate(payload@.len() as int));
                if is_customer {
                    assert(hello_items(self.switch_id, self@.ports, t1, payload@) == rest);
                } else {
                    assert(hello_items(self.switch_id, self@.ports, t1, payload@) == rest.push(item));
                    assert(rest.push(item).drop_last() =~= rest);
                    assert(rest.push(item).last() == item);
                }
            }
            if !is_customer {
                let copy = copy_bytes(&payload);
                let _ = self.send_control(port, copy, batch);
            }
            i = i + 1;
        }
        proof {
            assert(ps.take(i as int) =~= ps);
        }
    }

    /// Send one rotating LSDB record to every live neighbor. This repairs a
    /// missed flood without ever returning the full database per port.
    pub fn emit_anti_entropy(&mut self, batch: &mut ActionBatch)
        requires
            batch_wf(old(batch)@),
        ensures
            old(self)@.lsdb.dom().is_empty() ==> final(self)@ == old(self)@ && final(batch)@ == old(batch)@,
            !old(self)@.lsdb.dom().is_empty() ==> {
                &&& final(self)@ == (SwitchView { sync_cursor: wrapping_inc(old(self)@.sync_cursor), ..old(self)@ })
                &&& final(batch)@ == flooded(
                    old(batch)@,
                    old(self)@,
                    old(self)@.lsdb[anti_entropy_origin(old(self)@)],
                    None,
                )
            },
            (final(self)@, final(batch)@) == crate::events::anti_entropy_step(old(self)@, old(batch)@),
            batch_wf(final(batch)@),
            final(batch).limit == old(batch).limit,
    {
        let origins = keys_u32(&self.lsdb);
        proof {
            assert(self@.lsdb.dom() =~= self.lsdb@.dom());
            lemma_sorted_ids_is(origins@, self@.lsdb.dom());
        }
        if origins.len() == 0 {
            proof {
                assert(self@.lsdb.dom() =~= Set::<u32>::empty());
            }
            return;
        }
        proof {
            assert(origins@.to_set().contains(origins@[0]));
        }
        let ghost s0 = self@;
        let index = self.sync_cursor % origins.len();
        self.sync_cursor = self.sync_cursor.wrapping_add(1);
        let origin = origins[index];
        assert(origins@.to_set().contains(origin));
        let lsa = self.lsdb.get(&origin).unwrap().duplicate();
        proof {
            assert(self@ =~= (SwitchView { sync_cursor: wrapping_inc(s0.sync_cursor), ..s0 }));
        }
        self.flood_lsa(&lsa, None, batch);
    }


    pub fn apply_route_diff(&mut self, desired: &BTreeMap<u32, DesiredRoute>, batch: &mut ActionBatch) -> (r: bool)
        requires
            batch_wf(old(batch)@),
        ensures
            ({
                let (m, b, complete) = route_diff(
                    old(self)@.installed_routes,
                    old(batch)@,
                    desired@,
                    diff_customers(old(self)@.installed_routes, desired@),
                );
                &&& final(self)@ == (SwitchView { installed_routes: m, ..old(self)@ })
                &&& final(batch)@ == b
                &&& r == complete
            }),
            batch_wf(final(batch)@),
            final(batch).limit == old(batch).limit,
    {
        let ghost m0 = self@.installed_routes;
        let ghost b0 = batch@;
        let ghost d = desired@;
        let mut all: BTreeSet<u32> = BTreeSet::new();
        let installed_keys = keys_u32(&self.installed_routes);
        let desired_keys = keys_u32(desired);
        let mut i: usize = 0;
        while i < installed_keys.len()
            invariant
                i <= installed_keys@.len(),
                forall|c: u32| #[trigger] all@.contains(c) <==> installed_keys@.take(i as int).contains(c),
            decreases installed_keys@.len() - i,
        {
            all.insert(installed_keys[i]);
            proof {
                let t = installed_keys@.take(i as int);
                let t1 = installed_keys@.take(i + 1);
                assert(t1 =~= t.push(installed_keys@[i as int]));
                assert forall|c: u32| #[trigger] all@.contains(c) <==> t1.contains(c) by {
                    if t1.contains(c) && c != installed_keys@[i as int] {
                        let k = t1.index_of(c);
                        assert(t[k] == c);
                    }
                    if t.contains(c) {
                        let k = t.index_of(c);
                        assert(t1[k] == c);
                    }
                    assert(t1[i as int] == installed_keys@[i as int]);
                }
            }
            i = i + 1;
        }
        assert(installed_keys@.take(i as int) =~= installed_keys@);
        let mut i: usize = 0;
        while i < desired_keys.len()
            invariant
                i <= desired_keys@.len(),
                forall|c: u32| #[trigger] all@.contains(c) <==> (installed_keys@.contains(c) || desired_keys@.take(i as int).contains(c)),
            decreases desired_keys@.len() - i,
        {
            all.insert(desired_keys[i]);
            proof {
                let t = desired_keys@.take(i as int);
                let t1 = desired_keys@.take(i + 1);
                assert(t1 =~= t.push(desired_keys@[i as int]));
                assert forall|c: u32| #[trigger] all@.contains(c) <==> (installed_keys@.contains(c) || t1.contains(c)) by {
                    if t1.contains(c) && c != desired_keys@[i as int] {
                        let k = t1.index_of(c);
                        assert(t[k] == c);
                    }
                    if t.contains(c) {
                        let k = t.index_of(c);
                        assert(t1[k] == c);
                    }
                    assert(t1[i as int] == desired_keys@[i as int]);
                }
            }
            i = i + 1;
        }
        assert(desired_keys@.take(i as int) =~= desired_keys@);
        let keys = elements_u32(&all);
        proof {
            assert forall|c: u32| all@.contains(c) <==> m0.dom().union(d.dom()).contains(c) by {
                if m0.contains_key(c) {
                    assert(installed_keys@.to_set().contains(c));
                }
                if d.contains_key(c) {
                    assert(desired_keys@.to_set().contains(c));
                }
                if installed_keys@.contains(c) {
                    assert(installed_keys@.to_set().contains(c));
                }
                if desired_keys@.contains(c) {
                    assert(desired_keys@.to_set().contains(c));
                }
            }
            assert(all@ =~= m0.dom().union(d.dom()));
            lemma_sorted_ids_is(keys@, m0.dom().union(d.dom()));
        }
        let mut complete = true;
        let mut j: usize = 0;
        while j < keys.len()
            invariant
                j <= keys@.len(),
                keys@ == diff_customers(m0, d),
                ascending_u32(keys@, m0.dom().union(d.dom())),
                d == desired@,
                batch_wf(batch@),
                batch.limit == old(batch).limit,
                self@ == (SwitchView { installed_routes: self@.installed_routes, ..old(self)@ }),
                (self@.installed_routes, batch@, complete) == route_diff(m0, b0, d, keys@.take(j as int)),
                forall|a: int| j <= a < keys@.len() ==> (self@.installed_routes.contains_key(#[trigger] keys@[a])
                    == m0.contains_key(keys@[a])) && (m0.contains_key(keys@[a]) ==> self@.installed_routes[keys@[a]] == m0[keys@[a]]),
            decreases keys@.len() - j,
        {
            let customer = keys[j];
            let ghost mb = self@.installed_routes;
            let ghost bb = batch@;
            let ghost cb = complete;
            let old_route: Option<InstalledRoute> = match self.installed_routes.get(&customer) {
                Some(r) => Some(*r),
                None => None,
            };
            let new_route: Option<DesiredRoute> = match desired.get(&customer) {
                Some(r) => Some(*r),
                None => None,
            };
            match old_route {
                None => match new_route {
                    None => {},
                    Some(route) => {
                        let installed = InstalledRoute {
                            entry_id: customer as u64,
                            port: route.port,
                            next_hop: route.next_hop,
                        };
                        if batch.try_push(
                            Action::InstallTableEntry {
                                table: T_ROUTE,
                                entry_id: installed.entry_id,
                                key: customer as u64,
                                prefix_len: 32,
                                port: installed.port,
                            },
                            INSTALL_ACTION_ESTIMATE,
                        ) {
                            self.installed_routes.insert(customer, installed);
                        } else {
                            complete = false;
                        }
                    },
                },
                Some(old_entry) => match new_route {
                    None => {
                        if batch.try_push(
                            Action::DeleteTableEntry { table: T_ROUTE, entry_id: old_entry.entry_id },
                            DELETE_ACTION_ESTIMATE,
                        ) {
                            self.installed_routes.remove(&customer);
                        } else {
                            complete = false;
                        }
                    },
                    Some(route) => {
                        let unchanged = old_entry.port == route.port && match (old_entry.next_hop, route.next_hop) {
                            (Some(a), Some(b)) => a == b,
                            (None, None) => true,
                            _ => false,
                        };
                        if !unchanged {
                            let pair_cost = DELETE_ACTION_ESTIMATE + INSTALL_ACTION_ESTIMATE;
                            if !batch.can_fit(pair_cost) {
                                complete = false;
                            } else {
                                let _ = batch.try_push(
                                    Action::DeleteTableEntry { table: T_ROUTE, entry_id: old_entry.entry_id },
                                    DELETE_ACTION_ESTIMATE,
                                );
                                let replacement = InstalledRoute {
                                    entry_id: old_entry.entry_id,
                                    port: route.port,
                                    next_hop: route.next_hop,
                                };
                                let _ = batch.try_push(
                                    Action::InstallTableEntry {
                                        table: T_ROUTE,
                                        entry_id: replacement.entry_id,
                                        key: customer as u64,
                                        prefix_len: 32,
                                        port: replacement.port,
                                    },
                                    INSTALL_ACTION_ESTIMATE,
                                );
                                self.installed_routes.insert(customer, replacement);
                            }
                        }
                    },
                },
            }
            proof {
                let t1 = keys@.take(j + 1);
                assert(t1.drop_last() =~= keys@.take(j as int));
                assert(keys@[j as int] == customer);
                assert(t1.last() == customer);
                assert(self@.installed_routes =~= diff_step(mb, bb, cb, customer, d).0);
                assert forall|a: int| j + 1 <= a < keys@.len() implies (self@.installed_routes.contains_key(#[trigger] keys@[a])
                    == m0.contains_key(keys@[a])) && (m0.contains_key(keys@[a]) ==> self@.installed_routes[keys@[a]] == m0[keys@[a]]) by {
                    assert(keys@[j as int] < keys@[a]);
                }
            }
            j = j + 1;
        }
        proof {
            assert(keys@.take(j as int) =~= keys@);
        }
        complete
    }

    /// Brings the installed routes in line with the desired ones when they may
    /// be stale; the time of the call does not matter.
    pub fn maybe_recompute_routes(&mut self, _now_ns: u64, batch: &mut ActionBatch)
        requires
            batch_wf(old(batch)@),
        ensures
            (final(self)@, final(batch)@) == recompute_step(old(self)@, old(batch)@),
            batch_wf(final(batch)@),
            final(batch).limit == old(batch).limit,
    {
        if !self.routing_dirty {
            return;
        }
        let ghost s0 = self@;
        let neighbors = self.direct_neighbors();
        let desired = desired_routes(self.switch_id, neighbors.as_slice(), &self.local_customers, &self.lsdb);
        proof {
            assert(desired@ =~= desired_map(s0));
        }
        if self.apply_route_diff(&desired, batch) {
            self.routing_dirty = false;
        }
    }

    pub fn direct_neighbors(&self) -> (r: Vec<(u32, u16)>)
        ensures
            r@ == sorted_entries(neighbor_entries(self@.ports)),
            entries_sorted(r@),
            r@.to_set() == neighbor_entries(self@.ports),
    {
        let ghost pv = self@.ports;
        let live = self.live_neighbor_ports();
        let mut r: Vec<(u32, u16)> = Vec::new();
        let mut i: usize = 0;
        while i < live.len()
            invariant
                pv == self@.ports,
                live@ == live_pairs(pv),
                i <= live@.len(),
                forall|a: int, b: int| 0 <= a < b < r@.len() ==> entry_lt(r@[a], r@[b]),
                forall|e: (u32, u16)| #[trigger] r@.contains(e) <==> live@.take(i as int).contains((e.1, e.0)),
            decreases live@.len() - i,
        {
            let (port, neighbor) = live[i];
            let entry = (neighbor, port);
            insert_sorted(&mut r, entry);
            proof {
                let t = live@.take(i as int);
                let t1 = live@.take(i + 1);
                assert(t1 =~= t.push((port, neighbor)));
                assert forall|e: (u32, u16)| #[trigger] r@.contains(e) <==> t1.contains((e.1, e.0)) by {
                    if t1.contains((e.1, e.0)) && (e.1, e.0) != (port, neighbor) {
                        let k = t1.index_of((e.1, e.0));
                        assert(t[k] == (e.1, e.0));
                    }
                    if t.contains((e.1, e.0)) {
                        let k = t.index_of((e.1, e.0));
                        assert(t1[k] == (e.1, e.0));
                    }
                    assert(t1[i as int] == (port, neighbor));
                }
            }
            i = i + 1;
        }
        proof {
            assert(live@.take(i as int) =~= live@);
            let ps = sorted_ports(live_ports(pv));
            assert(ps == ports_of(live@));
            assert forall|e: (u32, u16)| r@.to_set().contains(e) <==> neighbor_entries(pv).contains(e) by {
                if r@.contains(e) {
                    let k = live@.index_of((e.1, e.0));
                    assert(live@[k] == (ps[k], neighbor_of(pv[ps[k]].role)));
                    assert(ps.to_set().contains(ps[k]));
                }
                if neighbor_entries(pv).contains(e) {
                    assert(ps.to_set().contains(e.1));
                    let k = ps.index_of(e.1);
                    assert(live@[k] == (e.1, e.0));
                }
            }
            assert(r@.to_set() =~= neighbor_entries(pv));
            let c = sorted_entries(neighbor_entries(pv));
            assert(entries_sorted(c) && c.to_set() == neighbor_entries(pv));
            lemma_sorted_entries_unique(c, r@, neighbor_entries(pv));
        }
        r
    }
}


/// A copy of a byte buffer.
fn copy_bytes(v: &Vec<u8>) -> (r: Vec<u8>)
    ensures
        r@ == v@,
{
    let r = v.clone();
    assert(r@ =~= v@);
    r
}

/// Whether two identifier lists are equal.
fn same_ids(a: &Vec<u32>, b: &Vec<u32>) -> (r: bool)
    ensures
        r == (a@ == b@),
{
    if a.len() != b.len() {
        return false;
    }
    let mut i: usize = 0;
    while i < a.len()
        invariant
            i <= a@.len(),
            a@.len() == b@.len(),
            forall|k: int| 0 <= k < i ==> a@[k] == b@[k],
        decreases a@.len() - i,
    {
        if a[i] != b[i] {
            return false;
        }
        i = i + 1;
    }
    assert(a@ =~= b@);
    true
}

/// Once an offer has not fitted, later offers change nothing.
proof fn lemma_until_full_stays(b: BatchView, switch_id: u32, port: u16, lsdb: Map<u32, LsaView>, os: Seq<u32>, k: nat)
    requires
        k <= os.len(),
        offered_until_full(b, sync_items(switch_id, port, lsdb, os.take(k as int))).1,
    ensures
        offered_until_full(b, sync_items(switch_id, port, lsdb, os))
            == offered_until_full(b, sync_items(switch_id, port, lsdb, os.take(k as int))),
    decreases os.len() - k,
{
    if k < os.len() {
        let t = os.take(k as int);
        let t1 = os.take((k + 1) as int);
        assert(t1.drop_last() =~= t);
        let rest = sync_items(switch_id, port, lsdb, t);
        let l = lsdb[t1.last()];
        if encodable(l) {
            let item = (inject(switch_id, port, lsa_bytes(l)), control_estimate(lsa_bytes(l).len() as int));
            assert(sync_items(switch_id, port, lsdb, t1) == rest.push(item));
            assert(rest.push(item).drop_last() =~= rest);
        } else {
            assert(sync_items(switch_id, port, lsdb, t1) == rest);
        }
        assert(offered_until_full(b, sync_items(switch_id, port, lsdb, t1))
            == offered_until_full(b, sync_items(switch_id, port, lsdb, t)));
        lemma_until_full_stays(b, switch_id, port, lsdb, os, k + 1);
    } else {
        assert(os.take(k as int) =~= os);
    }
}

/// Inserts `e` into a strictly increasing list unless it is already there.
fn insert_sorted(v: &mut Vec<(u32, u16)>, e: (u32, u16))
    requires
        forall|a: int, b: int| 0 <= a < b < old(v)@.len() ==> entry_lt(old(v)@[a], old(v)@[b]),
    ensures
        forall|a: int, b: int| 0 <= a < b < final(v)@.len() ==> entry_lt(final(v)@[a], final(v)@[b]),
        forall|x: (u32, u16)| #[trigger] final(v)@.contains(x) <==> (old(v)@.contains(x) || x == e),
{
    let mut k: usize = 0;
    while k < v.len() && (v[k].0 < e.0 || (v[k].0 == e.0 && v[k].1 < e.1))
        invariant
            k <= v@.len(),
            v@ == old(v)@,
            forall|a: int, b: int| 0 <= a < b < v@.len() ==> entry_lt(v@[a], v@[b]),
            forall|a: int| 0 <= a < k ==> entry_lt(#[trigger] v@[a], e),
        decreases v@.len() - k,
    {
        k = k + 1;
    }
    if k < v.len() && v[k].0 == e.0 && v[k].1 == e.1 {
        return;
    }
    let ghost before = v@;
    v.insert(k, e);
    proof {
        assert forall|a: int, b: int| 0 <= a < b < v@.len() implies entry_lt(v@[a], v@[b]) by {
            if b < k {
                assert(v@[a] == before[a] && v@[b] == before[b]);
            } else if b == k {
                assert(v@[a] == before[a]);
            } else if a < k {
                assert(v@[a] == before[a] && v@[b] == before[b - 1]);
                assert(entry_lt(before[a], e));
                assert(!entry_lt(before[k as int], e));
                if b - 1 > k {
                    assert(entry_lt(before[k as int], before[b - 1]));
                }
            } else if a == k {
                assert(v@[b] == before[b - 1]);
                assert(!entry_lt(before[k as int], e));
                assert(before[k as int] != e);
                if b - 1 > k {
                    assert(entry_lt(before[k as int], before[b - 1]));
                }
            } else {
                assert(v@[a] == before[a - 1] && v@[b] == before[b - 1]);
            }
        }
        assert forall|x: (u32, u16)| #[trigger] v@.contains(x) <==> (before.contains(x) || x == e) by {
            if v@.contains(x) {
                let j = v@.index_of(x);
                if j < k {
                    assert(before[j] == x);
                } else if j > k {
                    assert(before[j - 1] == x);
                }
            }
            if before.contains(x) {
                let j = before.index_of(x);
                if j < k {
                    assert(v@[j] == x);
                } else {
                    assert(v@[j + 1] == x);
                }
            }
            if x == e {
                assert(v@[k as int] == e);
            }
        }
    }
}

// ---------------------------------------------------------------------------
// Laws of flooding, database sync, HELLO liveness and classification
// ---------------------------------------------------------------------------

proof fn lemma_total_size_push(a: Seq<ActionView>, x: ActionView)
    ensures
        total_size(a.push(x)) == total_size(a) + action_size(x),
{
    assert(a.push(x).drop_last() =~= a);
}

proof fn lemma_action_size_positive(x: ActionView)
    ensures
        action_size(x) > 0,
{
}

/// Items whose estimates are the sizes of their actions.
spec fn sized_items(items: Seq<(ActionView, int)>) -> bool {
    forall|i: int| 0 <= i < items.len() ==> #[trigger] items[i].1 == action_size(items[i].0)
}

/// The actions of a list of items.
spec fn item_actions(items: Seq<(ActionView, int)>) -> Seq<ActionView> {
    items.map_values(|x: (ActionView, int)| x.0)
}

/// Offering items that all fit appends all of their actions.
proof fn lemma_offered_all_with_room(b: BatchView, items: Seq<(ActionView, int)>)
    requires
        batch_wf(b),
        sized_items(items),
        total_size(b.actions + item_actions(items)) <= b.limit,
    ensures
        offered_all(b, items) == (BatchView {
            actions: b.actions + item_actions(items),
            estimated: total_size(b.actions + item_actions(items)),
            limit: b.limit,
        }),
    decreases items.len(),
{
    if items.len() == 0 {
        assert(b.actions + item_actions(items) =~= b.actions);
    } else {
        let init = items.drop_last();
        let x = items.last();
        assert(x == items[items.len() - 1]);
        let pre = b.actions + item_actions(init);
        assert(b.actions + item_actions(items) =~= pre.push(x.0));
        lemma_total_size_push(pre, x.0);
        lemma_action_size_positive(x.0);
        assert forall|i: int| 0 <= i < init.len() implies #[trigger] init[i].1 == action_size(init[i].0) by {
            assert(init[i] == items[i]);
        }
        lemma_offered_all_with_room(b, init);
    }
}

/// Offering items until one does not fit, when they all fit, appends all of
/// their actions and never stops early.
proof fn lemma_until_full_with_room(b: BatchView, items: Seq<(ActionView, int)>)
    requires
        batch_wf(b),
        sized_items(items),
        total_size(b.actions + item_actions(items)) <= b.limit,
    ensures
        offered_until_full(b, items) == (BatchView {
            actions: b.actions + item_actions(items),
            estimated: total_size(b.actions + item_actions(items)),
            limit: b.limit,
        }, false),
    decreases items.len(),
{
    if items.len() == 0 {
        assert(b.actions + item_actions(items) =~= b.actions);
    } else {
        let init = items.drop_last();
        let x = items.last();
        assert(x == items[items.len() - 1]);
        let pre = b.actions + item_actions(init);
        assert(b.actions + item_actions(items) =~= pre.push(x.0));
        lemma_total_size_push(pre, x.0);
        lemma_action_size_positive(x.0);
        assert forall|i: int| 0 <= i < init.len() implies #[trigger] init[i].1 == action_size(init[i].0) by {
            assert(init[i] == items[i]);
        }
        lemma_until_full_with_room(b, init);
    }
}

/// Ports other than `except`.
pub open spec fn other_than(except: Option<u16>) -> spec_fn(u16) -> bool {
    |p: u16| except != Some(p)
}

/// A control packet from this switch carrying `payload` out of a given port.
pub open spec fn packet_to(switch_id: u32, payload: Seq<u8>) -> spec_fn(u16) -> ActionView {
    |p: u16| inject(switch_id, p, payload)
}

/// One control packet carrying `l` to each live neighbor port other than
/// `except`, in ascending port order.
pub open spec fn flood_packets(s: SwitchView, l: LsaView, except: Option<u16>) -> Seq<ActionView> {
    sorted_ports(live_ports(s.ports)).filter(other_than(except)).map_values(packet_to(s.switch_id, lsa_bytes(l)))
}

proof fn lemma_flood_items_are_packets(switch_id: u32, ps: Seq<u16>, payload: Seq<u8>, except: Option<u16>)
    ensures
        sized_items(flood_items(switch_id, ps, payload, except)),
        item_actions(flood_items(switch_id, ps, payload, except)) == ps.filter(other_than(except)).map_values(
            packet_to(switch_id, payload),
        ),
    decreases ps.len(),
{
    reveal(Seq::filter);
    let items = flood_items(switch_id, ps, payload, except);
    if ps.len() == 0 {
        assert(item_actions(items) =~= ps.filter(other_than(except)).map_values(packet_to(switch_id, payload)));
    } else {
        let init = ps.drop_last();
        let p = ps.last();
        lemma_flood_items_are_packets(switch_id, init, payload, except);
        let rest = flood_items(switch_id, init, payload, except);
        let f = ps.filter(other_than(except));
        assert(f == if other_than(except)(p) { init.filter(other_than(except)).push(p) } else { init.filter(other_than(except)) });
        if except == Some(p) {
            assert(items == rest);
            assert(!other_than(except)(p));
        } else {
            assert(other_than(except)(p));
            let item = (inject(switch_id, p, payload), control_estimate(payload.len() as int));
            assert(items == rest.push(item));
            assert forall|i: int| 0 <= i < items.len() implies #[trigger] items[i].1 == action_size(items[i].0) by {
                if i < rest.len() {
                    assert(items[i] == rest[i]);
                }
            }
            assert(item_actions(items) =~= item_actions(rest).push(item.0));
            assert(f.map_values(packet_to(switch_id, payload)) =~= init.filter(other_than(except)).map_values(
                packet_to(switch_id, payload),
            ).push(packet_to(switch_id, payload)(p)));
        }
    }
}

/// Flooding an encodable advertisement, when the batch has room for it all,
/// appends exactly one control packet carrying the advertisement to each live
/// neighbor port other than the excluded one, in ascending port order, and
/// nothing else.
pub proof fn lemma_flood_reaches_other_live_ports(b: BatchView, s: SwitchView, l: LsaView, except: Option<u16>)
    requires
        batch_wf(b),
        encodable(l),
        total_size(b.actions + flood_packets(s, l, except)) <= b.limit,
    ensures
        flooded(b, s, l, except).actions == b.actions + flood_packets(s, l, except),
{
    let ps = sorted_ports(live_ports(s.ports));
    lemma_flood_items_are_packets(s.switch_id, ps, lsa_bytes(l), except);
    lemma_offered_all_with_room(b, flood_items(s.switch_id, ps, lsa_bytes(l), except));
}

/// The origins whose advertisement can be encoded.
pub open spec fn encodable_in(lsdb: Map<u32, LsaView>) -> spec_fn(u32) -> bool {
    |o: u32| encodable(lsdb[o])
}

/// A control packet to `port` carrying the LSDB record of a given origin.
pub open spec fn record_packet(switch_id: u32, port: u16, lsdb: Map<u32, LsaView>) -> spec_fn(u32) -> ActionView {
    |o: u32| inject(switch_id, port, lsa_bytes(lsdb[o]))
}

/// One control packet to `port` per encodable LSDB record, in ascending origin
/// order.
pub open spec fn sync_packets(switch_id: u32, port: u16, lsdb: Map<u32, LsaView>) -> Seq<ActionView> {
    sorted_ids(lsdb.dom()).filter(encodable_in(lsdb)).map_values(record_packet(switch_id, port, lsdb))
}

proof fn lemma_sync_items_are_packets(switch_id: u32, port: u16, lsdb: Map<u32, LsaView>, os: Seq<u32>)
    ensures
        sized_items(sync_items(switch_id, port, lsdb, os)),
        item_actions(sync_items(switch_id, port, lsdb, os)) == os.filter(encodable_in(lsdb)).map_values(
            record_packet(switch_id, port, lsdb),
        ),
    decreases os.len(),
{
    reveal(Seq::filter);
    let items = sync_items(switch_id, port, lsdb, os);
    if os.len() == 0 {
        assert(item_actions(items) =~= os.filter(encodable_in(lsdb)).map_values(record_packet(switch_id, port, lsdb)));
    } else {
        let init = os.drop_last();
        let o = os.last();
        lemma_sync_items_are_packets(switch_id, port, lsdb, init);
        let rest = sync_items(switch_id, port, lsdb, init);
        let f = os.filter(encodable_in(lsdb));
        assert(f == if encodable_in(lsdb)(o) { init.filter(encodable_in(lsdb)).push(o) } else { init.filter(encodable_in(lsdb)) });
        if encodable(lsdb[o]) {
            let item = (inject(switch_id, port, lsa_bytes(lsdb[o])), control_estimate(lsa_bytes(lsdb[o]).len() as int));
            assert(items == rest.push(item));
            assert forall|i: int| 0 <= i < items.len() implies #[trigger] items[i].1 == action_size(items[i].0) by {
                if i < rest.len() {
                    assert(items[i] == rest[i]);
                }
            }
            assert(item_actions(items) =~= item_actions(rest).push(item.0));
            assert(encodable_in(lsdb)(o));
            assert(f.map_values(record_packet(switch_id, port, lsdb)) =~= init.filter(encodable_in(lsdb)).map_values(
                record_packet(switch_id, port, lsdb),
            ).push(record_packet(switch_id, port, lsdb)(o)));
        } else {
            assert(items == rest);
            assert(!encodable_in(lsdb)(o));
        }
    }
}

/// Syncing a neighbor, when the batch has room for it all, appends exactly one
/// control packet to that port per encodable LSDB record, for every origin in
/// the LSDB, in ascending origin order, and nothing else.
pub proof fn lemma_sync_sends_whole_lsdb(b: BatchView, switch_id: u32, port: u16, lsdb: Map<u32, LsaView>)
    requires
        batch_wf(b),
        total_size(b.actions + sync_packets(switch_id, port, lsdb)) <= b.limit,
    ensures
        offered_until_full(b, sync_items(switch_id, port, lsdb, sorted_ids(lsdb.dom()))).0.actions
            == b.actions + sync_packets(switch_id, port, lsdb),
{
    let os = sorted_ids(lsdb.dom());
    lemma_sync_items_are_packets(switch_id, port, lsdb, os);
    lemma_until_full_with_room(b, sync_items(switch_id, port, lsdb, os));
}

/// A HELLO that is not ignored binds its port to the sender as a live
/// neighbor, with the HELLO's arrival time and sequence as the last heard,
/// whatever the port's previous role; no other port changes.
pub proof fn lemma_hello_refreshes_liveness(s: SwitchView, now: u64, port: u16, h: Hello, b: BatchView)
    requires
        !hello_ignored(s, port, h),
    ensures
        hello_step(s, now, port, h, b).0.ports.contains_key(port),
        hello_step(s, now, port, h, b).0.ports[port].role == (PortRole::Switch { neighbor_id: h.sender, live: true }),
        hello_step(s, now, port, h, b).0.ports[port].last_hello_ns == Some(now),
        hello_step(s, now, port, h, b).0.ports[port].last_hello_sequence == Some(h.sequence),
        forall|q: u16| q != port ==> #[trigger] hello_step(s, now, port, h, b).0.ports.contains_key(q)
            == s.ports.contains_key(q) && (s.ports.contains_key(q) ==> hello_step(s, now, port, h, b).0.ports[q] == s.ports[q]),
{
}

/// Recording two lists of pairs in turn is recording their concatenation.
proof fn lemma_learn_all_append(local: Map<u32, u16>, p1: Seq<(u32, u16)>, p2: Seq<(u32, u16)>)
    ensures
        learn_all(local, p1 + p2).0 == learn_all(learn_all(local, p1).0, p2).0,
    decreases p2.len(),
{
    if p2.len() == 0 {
        assert(p1 + p2 =~= p1);
    } else {
        lemma_learn_all_append(local, p1, p2.drop_last());
        assert((p1 + p2).drop_last() =~= p1 + p2.drop_last());
        assert((p1 + p2).last() == p2.last());
    }
}

/// Recording pairs that all name port `p` maps each of their customers to `p`
/// and leaves every other customer alone.
proof fn lemma_learn_all_one_port(m: Map<u32, u16>, pairs: Seq<(u32, u16)>, p: u16)
    requires
        forall|i: int| 0 <= i < pairs.len() ==> (#[trigger] pairs[i]).1 == p,
    ensures
        forall|c: u32| #[trigger] learn_all(m, pairs).0.contains_key(c) == (m.contains_key(c) || pairs.contains((c, p))),
        forall|c: u32| pairs.contains((c, p)) ==> #[trigger] learn_all(m, pairs).0[c] == p,
        forall|c: u32| !pairs.contains((c, p)) && m.contains_key(c) ==> #[trigger] learn_all(m, pairs).0[c] == m[c],
    decreases pairs.len(),
{
    if pairs.len() > 0 {
        let init = pairs.drop_last();
        let x = pairs.last();
        assert(x == pairs[pairs.len() - 1]);
        assert forall|i: int| 0 <= i < init.len() implies (#[trigger] init[i]).1 == p by {
            assert(init[i] == pairs[i]);
        }
        lemma_learn_all_one_port(m, init, p);
        assert forall|c: u32| pairs.contains((c, p)) <==> (init.contains((c, p)) || x == (c, p)) by {
            if pairs.contains((c, p)) && x != (c, p) {
                let k = pairs.index_of((c, p));
                assert(init[k] == (c, p));
            }
            if init.contains((c, p)) {
                let k = init.index_of((c, p));
                assert(pairs[k] == (c, p));
            }
        }
        let m0 = learn_all(m, init).0;
        assert(x.1 == p);
        assert(learn_all(m, pairs).0 == m0.insert(x.0, p));
        assert forall|c: u32| #[trigger] learn_all(m, pairs).0.contains_key(c) == (m.contains_key(c) || pairs.contains((c, p))) by {
            assert(m0.contains_key(c) == (m.contains_key(c) || init.contains((c, p))));
            assert(x == (x.0, p));
        }
        assert forall|c: u32| pairs.contains((c, p)) implies #[trigger] learn_all(m, pairs).0[c] == p by {
            if c != x.0 {
                assert(init.contains((c, p)));
            }
        }
        assert forall|c: u32| !pairs.contains((c, p)) && m.contains_key(c) implies #[trigger] learn_all(m, pairs).0[c] == m[c] by {
            assert(x == (x.0, p));
            assert(c != x.0);
            assert(!init.contains((c, p)));
        }
    }
}

/// Port `p` was ready for customers and has `c` among its candidates.
pub open spec fn ready_candidate(ports: Map<u16, PortView>, now: u64, p: u16, c: u32) -> bool {
    &&& ports.contains_key(p)
    &&& ready_for_customers(ports[p], now)
    &&& ports[p].candidate_customers.contains(c)
}

proof fn lemma_learned_prefix(local: Map<u32, u16>, ports: Map<u16, PortView>, now: u64, ps: Seq<u16>, k: int)
    requires
        0 <= k <= ps.len(),
        forall|i: int, j: int| 0 <= i < j < ps.len() ==> ps[i] < ps[j],
        forall|p: u16| #[trigger] ports.contains_key(p) ==> ports[p].candidate_customers.finite(),
        forall|i: int| 0 <= i < ps.len() ==> ports.contains_key(#[trigger] ps[i]),
    ensures
        ({
            let m = learn_all(local, learned_pairs(ports, now, ps.take(k))).0;
            &&& forall|p: u16, c: u32| #[trigger] ready_candidate(ports, now, p, c) && ps.take(k).contains(p) ==> {
                &&& m.contains_key(c)
                &&& ready_candidate(ports, now, m[c], c)
                &&& ps.take(k).contains(m[c])
                &&& p <= m[c]
            }
            &&& forall|c: u32| (forall|p: u16| ps.take(k).contains(p) ==> !#[trigger] ready_candidate(ports, now, p, c)) ==> {
                &&& #[trigger] m.contains_key(c) == local.contains_key(c)
                &&& local.contains_key(c) ==> m[c] == local[c]
            }
        }),
    decreases k,
{
    if k > 0 {
        lemma_learned_prefix(local, ports, now, ps, k - 1);
        let t = ps.take(k - 1);
        let t1 = ps.take(k);
        let p = ps[k - 1];
        assert(t1.drop_last() =~= t);
        assert(t1.last() == p);
        assert forall|q: u16| t1.contains(q) <==> (t.contains(q) || q == p) by {
            if t1.contains(q) && q != p {
                let i = t1.index_of(q);
                assert(t[i] == q);
            }
            if t.contains(q) {
                let i = t.index_of(q);
                assert(t1[i] == q);
            }
            assert(t1[k - 1] == p);
        }
        assert forall|q: u16| t.contains(q) implies q < p by {
            let i = t.index_of(q);
            assert(ps[i] == q);
        }
        let m0 = learn_all(local, learned_pairs(ports, now, t)).0;
        let m1 = learn_all(local, learned_pairs(ports, now, t1)).0;
        if ready_for_customers(ports[p], now) {
            let cs = sorted_ids(ports[p].candidate_customers);
            crate::ordered::lemma_sorted_ids_exists(ports[p].candidate_customers);
            let pairs = cs.map_values(|c: u32| (c, p));
            assert(learned_pairs(ports, now, t1) == learned_pairs(ports, now, t) + pairs);
            lemma_learn_all_append(local, learned_pairs(ports, now, t), pairs);
            lemma_learn_all_one_port(m0, pairs, p);
            assert forall|c: u32| pairs.contains((c, p)) <==> ports[p].candidate_customers.contains(c) by {
                if pairs.contains((c, p)) {
                    let i = pairs.index_of((c, p));
                    assert(cs[i] == c);
                    assert(cs.to_set().contains(c));
                }
                if ports[p].candidate_customers.contains(c) {
                    assert(cs.to_set().contains(c));
                    let i = cs.index_of(c);
                    assert(pairs[i] == (c, p));
                }
            }
            assert forall|q: u16, c: u32| #[trigger] ready_candidate(ports, now, q, c) && t1.contains(q) implies {
                &&& m1.contains_key(c)
                &&& ready_candidate(ports, now, m1[c], c)
                &&& t1.contains(m1[c])
                &&& q <= m1[c]
            } by {
                if ports[p].candidate_customers.contains(c) {
                    assert(pairs.contains((c, p)));
                    assert(ready_candidate(ports, now, p, c));
                } else {
                    assert(q != p);
                    assert(t.contains(q));
                }
            }
            assert forall|c: u32| (forall|q: u16| t1.contains(q) ==> !#[trigger] ready_candidate(ports, now, q, c)) implies {
                &&& #[trigger] m1.contains_key(c) == local.contains_key(c)
                &&& local.contains_key(c) ==> m1[c] == local[c]
            } by {
                assert(t1.contains(p));
                assert(!ready_candidate(ports, now, p, c));
                assert(!pairs.contains((c, p)));
                assert forall|q: u16| t.contains(q) implies !#[trigger] ready_candidate(ports, now, q, c) by {
                    assert(t1.contains(q));
                }
            }
        } else {
            assert(learned_pairs(ports, now, t1) == learned_pairs(ports, now, t));
            assert forall|q: u16, c: u32| #[trigger] ready_candidate(ports, now, q, c) && t1.contains(q) implies {
                &&& m1.contains_key(c)
                &&& ready_candidate(ports, now, m1[c], c)
                &&& t1.contains(m1[c])
                &&& q <= m1[c]
            } by {
                assert(q != p);
                assert(t.contains(q));
            }
            assert forall|c: u32| (forall|q: u16| t1.contains(q) ==> !#[trigger] ready_candidate(ports, now, q, c)) implies {
                &&& #[trigger] m1.contains_key(c) == local.contains_key(c)
                &&& local.contains_key(c) ==> m1[c] == local[c]
            } by {
                assert forall|q: u16| t.contains(q) implies !#[trigger] ready_candidate(ports, now, q, c) by {
                    assert(t1.contains(q));
                }
            }
        }
    }
}

/// The local customers after classifying the ports at `now`.
pub open spec fn classified(local: Map<u32, u16>, ports: Map<u16, PortView>, now: u64) -> Map<u32, u16> {
    learn_all(local, learned_pairs(ports, now, sorted_ports(ports.dom()))).0
}

/// Classifying ports learns every candidate customer of every ready port: it
/// maps to a ready port that has it as a candidate, the highest such port when
/// several do; a customer that no ready port has as a candidate keeps what it
/// had.
pub proof fn lemma_classify_learns_every_candidate(local: Map<u32, u16>, ports: Map<u16, PortView>, now: u64)
    requires
        ports.dom().finite(),
        forall|p: u16| #[trigger] ports.contains_key(p) ==> ports[p].candidate_customers.finite(),
    ensures
        forall|p: u16, c: u32| #[trigger] ready_candidate(ports, now, p, c) ==> {
            &&& classified(local, ports, now).contains_key(c)
            &&& ready_candidate(ports, now, classified(local, ports, now)[c], c)
            &&& p <= classified(local, ports, now)[c]
        },
        forall|c: u32| (forall|p: u16| !#[trigger] ready_candidate(ports, now, p, c)) ==> {
            &&& #[trigger] classified(local, ports, now).contains_key(c) == local.contains_key(c)
            &&& local.contains_key(c) ==> classified(local, ports, now)[c] == local[c]
        },
{
    let ps = sorted_ports(ports.dom());
    crate::ordered::lemma_sorted_ports_exists(ports.dom());
    assert forall|i: int| 0 <= i < ps.len() implies ports.contains_key(#[trigger] ps[i]) by {
        assert(ps.to_set().contains(ps[i]));
    }
    lemma_learned_prefix(local, ports, now, ps, ps.len() as int);
    assert(ps.take(ps.len() as int) =~= ps);
    assert forall|p: u16, c: u32| #[trigger] ready_candidate(ports, now, p, c) implies ps.contains(p) by {
        assert(ps.to_set().contains(p));
    }
}

} // verus!
