//! The two host callbacks of a switch program: a packet punted to the control
//! plane, and the periodic timer. Each runs the state machine of
//! [`crate::switch`] against a fresh output budget and returns the actions.

use vstd::prelude::*;

use crate::ordered::{lemma_sorted_ports_is, sorted_ids, sorted_ports};
use crate::protocol::{decode, hello_bytes, spec_decode, ControlMessage, Hello, LsaView, MessageView};
use crate::switch::{
    actions_view, after_classify, after_expiry, anti_entropy_origin, batch_wf,
    customer_port_withdrawal, customer_punt_step, desired_map, expired_ports, flooded,
    fresh_switch_port, hello_ignored, hello_items, hello_step, learn_all, learned_pairs,
    lemma_diff_keeps_entries_keyed, lemma_withdrawn_only_removes, lsa_accepted, lsdb_advanced,
    offered_all, port_after_data, recompute_step, refresh_step, routes_on_port, sat_inc64,
    switch_wf, total_size, withdrawn, wrapping_inc, A1Switch, Action, ActionBatch, ActionView,
    BatchView, PortRole, SwitchView, ACTION_BUDGET_BYTES, CONTROL_PROTO, CONTROL_REASON,
    HELLO_INTERVAL_NS, TIMER_ACTION_ESTIMATE,
};

verus! {

/// Why the data plane handed a packet to the control plane.
#[derive(Debug, Clone, Copy, PartialEq, Eq, Structural)]
pub enum PuntReason {
    /// No route matched the destination.
    NoRoute,
    /// A table entry punted the packet with this program-defined code.
    Custom(u32),
    /// Any other reason; such packets are ignored.
    Other,
}

/// A packet punted to the control plane.
#[derive(Debug, Clone)]
pub struct PuntEvent {
    pub now_ns: u64,
    pub ingress_port: u16,
    pub ip_src: u32,
    pub ip_proto: u8,
    pub reason: PuntReason,
    pub payload: Vec<u8>,
}

/// The content of a [`PuntEvent`].
pub struct PuntEventView {
    pub now_ns: u64,
    pub ingress_port: u16,
    pub ip_src: u32,
    pub ip_proto: u8,
    pub reason: PuntReason,
    pub payload: Seq<u8>,
}

impl View for PuntEvent {
    type V = PuntEventView;

    open spec fn view(&self) -> PuntEventView {
        PuntEventView {
            now_ns: self.now_ns,
            ingress_port: self.ingress_port,
            ip_src: self.ip_src,
            ip_proto: self.ip_proto,
            reason: self.reason,
            payload: self.payload@,
        }
    }
}

/// The periodic timer firing.
#[derive(Debug, Clone, Copy, PartialEq, Eq, Structural)]
pub struct TimerEvent {
    pub now_ns: u64,
}

/// A batch with nothing in it yet.
pub open spec fn empty_batch(limit: int) -> BatchView {
    BatchView { actions: Seq::empty(), estimated: 0, limit }
}

/// A HELLO arriving on `port`.
pub open spec fn hello_event(s: SwitchView, now: u64, port: u16, h: Hello, b: BatchView) -> (SwitchView, BatchView) {
    if hello_ignored(s, port, h) {
        (s, b)
    } else {
        hello_step(s, now, port, h, b)
    }
}

/// An LSA arriving on `port`: a newer one is stored and flooded on.
pub open spec fn lsa_event(s: SwitchView, now: u64, port: u16, l: LsaView, b: BatchView) -> (SwitchView, BatchView) {
    if lsa_accepted(s, port, l) {
        (
            SwitchView { lsdb: s.lsdb.insert(l.origin, l), routing_dirty: true, last_routing_change_ns: now, ..s },
            flooded(b, s, l, Some(port)),
        )
    } else {
        (s, b)
    }
}

/// A control packet: handled by kind when it decodes, ignored otherwise.
pub open spec fn control_event(s: SwitchView, now: u64, port: u16, payload: Seq<u8>, b: BatchView) -> (SwitchView, BatchView) {
    match spec_decode(payload) {
        Some(MessageView::Hello(h)) => hello_event(s, now, port, h, b),
        Some(MessageView::Lsa(l)) => lsa_event(s, now, port, l, b),
        None => (s, b),
    }
}

/// The new state and the actions of a punt: control traffic drives neighbor
/// and LSDB state, a route miss drives customer discovery, anything else is
/// ignored.
pub open spec fn punt_step(s: SwitchView, ev: PuntEventView) -> (SwitchView, Seq<ActionView>) {
    let b = empty_batch(ACTION_BUDGET_BYTES as int);
    let (s1, b1) = if ev.ip_proto == CONTROL_PROTO && ev.reason == PuntReason::Custom(CONTROL_REASON) {
        control_event(s, ev.now_ns, ev.ingress_port, ev.payload, b)
    } else if ev.reason == PuntReason::NoRoute {
        customer_punt_step(s, ev.now_ns, ev.ingress_port, ev.ip_src, b)
    } else {
        (s, b)
    };
    (s1, b1.actions)
}

/// Withdrawing, port by port, the installed routes through the ports of `ps`.
pub open spec fn withdraw_ports(s: SwitchView, b: BatchView, ps: Seq<u16>) -> (SwitchView, BatchView)
    decreases ps.len(),
{
    if ps.len() == 0 {
        (s, b)
    } else {
        let (s1, b1) = withdraw_ports(s, b, ps.drop_last());
        let (m, b2) = withdrawn(
            s1.installed_routes,
            b1,
            sorted_ids(routes_on_port(s1.installed_routes, ps.last())),
        );
        (SwitchView { installed_routes: m, ..s1 }, b2)
    }
}

/// Sending a fresh HELLO out of every port not known to face a customer.
pub open spec fn hello_round(s: SwitchView, b: BatchView) -> (SwitchView, BatchView) {
    let seq = sat_inc64(s.hello_sequence);
    (
        SwitchView { hello_sequence: seq, ..s },
        offered_all(b, hello_items(s.switch_id, s.ports, sorted_ports(s.ports.dom()), hello_bytes(s.switch_id, seq))),
    )
}

/// Flooding the next LSDB record in rotation.
pub open spec fn anti_entropy_step(s: SwitchView, b: BatchView) -> (SwitchView, BatchView) {
    if s.lsdb.dom().is_empty() {
        (s, b)
    } else {
        (
            SwitchView { sync_cursor: wrapping_inc(s.sync_cursor), ..s },
            flooded(b, s, s.lsdb[anti_entropy_origin(s)], None),
        )
    }
}

/// The new state and the actions of a timer tick: expire silent neighbors and
/// withdraw their routes, classify quiet customer ports, republish the local
/// LSA when either changed anything, recompute routes when they may be stale,
/// send HELLOs, repair the LSDB when nothing else was sent, and rearm the
/// timer.
pub open spec fn timer_step(s: SwitchView, now: u64) -> (SwitchView, Seq<ActionView>) {
    let b0 = empty_batch(ACTION_BUDGET_BYTES - TIMER_ACTION_ESTIMATE);
    let expired = sorted_ports(expired_ports(s.ports, now));
    let s1 = SwitchView { ports: after_expiry(s.ports, now), ..s };
    let (s2, b2) = withdraw_ports(s1, b0, expired);
    let (lc, changed) = learn_all(
        s2.local_customers,
        learned_pairs(s2.ports, now, sorted_ports(s2.ports.dom())),
    );
    let s3 = SwitchView { ports: after_classify(s2.ports, now), local_customers: lc, ..s2 };
    let (s4, b4) = if expired.len() > 0 || changed {
        refresh_step(s3, now, b2)
    } else {
        (s3, b2)
    };
    let (s5, b5) = recompute_step(s4, b4);
    let (s6, b6) = hello_round(s5, b5);
    let (s7, b7) = if b5.actions.len() == 0 {
        anti_entropy_step(s6, b6)
    } else {
        (s6, b6)
    };
    (s7, b7.actions.push(ActionView::ScheduleTimer { delay_ns: HELLO_INTERVAL_NS }))
}

impl A1Switch {
    /// Handles a punted packet.
    pub fn on_punt(&mut self, ev: PuntEvent) -> (r: Vec<Action>)
        ensures
            (final(self)@, actions_view(r@)) == punt_step(old(self)@, ev@),
            total_size(actions_view(r@)) <= ACTION_BUDGET_BYTES,
    {
        let mut batch = ActionBatch::new(ACTION_BUDGET_BYTES);
        let control_reason = match ev.reason {
            PuntReason::Custom(code) => code == CONTROL_REASON,
            _ => false,
        };
        let no_route = match ev.reason {
            PuntReason::NoRoute => true,
            _ => false,
        };
        if ev.ip_proto == CONTROL_PROTO && control_reason {
            match decode(ev.payload.as_slice()) {
                Some(ControlMessage::Hello(hello)) => {
                    self.handle_hello(ev.now_ns, ev.ingress_port, hello, &mut batch);
                },
                Some(ControlMessage::Lsa(lsa)) => {
                    self.handle_lsa(ev.now_ns, ev.ingress_port, lsa, &mut batch);
                },
                None => {},
            }
        } else if no_route {
            self.handle_customer_punt(ev.now_ns, ev.ingress_port, ev.ip_src, &mut batch);
        }
        batch.into_actions()
    }

    /// Handles the periodic timer.
    pub fn on_timer(&mut self, ev: TimerEvent) -> (r: Vec<Action>)
        ensures
            (final(self)@, actions_view(r@)) == timer_step(old(self)@, ev.now_ns),
            total_size(actions_view(r@)) <= ACTION_BUDGET_BYTES,
            r@.len() > 0,
            r@.last() == (Action::ScheduleTimer { delay_ns: HELLO_INTERVAL_NS }),
    {
        let ghost s0 = self@;
        let now = ev.now_ns;
        let mut batch = ActionBatch::new(ACTION_BUDGET_BYTES - TIMER_ACTION_ESTIMATE);
        let ghost b0 = batch@;
        proof {
            assert(b0 =~= empty_batch(ACTION_BUDGET_BYTES - TIMER_ACTION_ESTIMATE));
        }

        let expired = self.expire_neighbors(now);
        let ghost s1 = self@;
        proof {
            lemma_sorted_ports_is(expired@, expired_ports(s0.ports, now));
        }
        let mut i: usize = 0;
        while i < expired.len()
            invariant
                i <= expired@.len(),
                batch_wf(batch@),
                batch.limit == ACTION_BUDGET_BYTES - TIMER_ACTION_ESTIMATE,
                (self@, batch@) == withdraw_ports(s1, b0, expired@.take(i as int)),
            decreases expired@.len() - i,
        {
            self.withdraw_installed_routes_on_port(expired[i], &mut batch);
            proof {
                let t1 = expired@.take(i + 1);
                assert(t1.drop_last() =~= expired@.take(i as int));
                assert(t1.last() == expired@[i as int]);
            }
            i = i + 1;
        }
        proof {
            assert(expired@.take(i as int) =~= expired@);
        }

        let customers_changed = self.classify_customer_ports(now);
        if expired.len() > 0 || customers_changed {
            let _ = self.refresh_local_lsa(now, &mut batch);
        }

        self.maybe_recompute_routes(now, &mut batch);
        let had_state_work = batch.has_work();
        self.emit_hellos(&mut batch);
        if !had_state_work {
            self.emit_anti_entropy(&mut batch);
        }
        batch.into_actions_with_timer()
    }
}

// ---------------------------------------------------------------------------
// Every callback keeps the state well-formed
// ---------------------------------------------------------------------------

proof fn lemma_refresh_keeps_wf(s: SwitchView, now: u64, b: BatchView)
    requires
        switch_wf(s),
    ensures
        switch_wf(refresh_step(s, now, b).0),
        lsdb_advanced(s, refresh_step(s, now, b).0),
{
}

proof fn lemma_withdrawal_keeps_wf(s: SwitchView, b: BatchView, cs: Seq<u32>)
    requires
        switch_wf(s),
    ensures
        switch_wf(SwitchView { installed_routes: withdrawn(s.installed_routes, b, cs).0, ..s }),
{
    lemma_withdrawn_only_removes(s.installed_routes, b, cs);
    let m = withdrawn(s.installed_routes, b, cs).0;
    assert forall|c: u32| #[trigger] m.contains_key(c) implies m[c].entry_id == c as u64 by {
        assert(s.installed_routes.contains_key(c));
    }
}

proof fn lemma_withdraw_ports_keeps_wf(s: SwitchView, b: BatchView, ps: Seq<u16>)
    requires
        switch_wf(s),
    ensures
        switch_wf(withdraw_ports(s, b, ps).0),
        withdraw_ports(s, b, ps).0.lsdb == s.lsdb,
    decreases ps.len(),
{
    if ps.len() > 0 {
        lemma_withdraw_ports_keeps_wf(s, b, ps.drop_last());
        let (s1, b1) = withdraw_ports(s, b, ps.drop_last());
        lemma_withdrawal_keeps_wf(s1, b1, sorted_ids(routes_on_port(s1.installed_routes, ps.last())));
    }
}

proof fn lemma_recompute_keeps_wf(s: SwitchView, b: BatchView)
    requires
        switch_wf(s),
    ensures
        switch_wf(recompute_step(s, b).0),
        recompute_step(s, b).0.lsdb == s.lsdb,
{
    lemma_diff_keeps_entries_keyed(s.installed_routes, b, desired_map(s));
}

proof fn lemma_hello_keeps_wf(s: SwitchView, now: u64, port: u16, h: Hello, b: BatchView)
    requires
        switch_wf(s),
    ensures
        switch_wf(hello_event(s, now, port, h, b).0),
        lsdb_advanced(s, hello_event(s, now, port, h, b).0),
{
    if !hello_ignored(s, port, h) {
        let s1 = SwitchView {
            ports: s.ports.insert(port, fresh_switch_port(h.sender, now, h.sequence)),
            ..s
        };
        let (s2, b2) = if s.ports[port].role == PortRole::Customer {
            lemma_withdrawal_keeps_wf(
                s1,
                b,
                sorted_ids(routes_on_port(s1.installed_routes, port)),
            );
            customer_port_withdrawal(s1, port, b)
        } else {
            (s1, b)
        };
        lemma_refresh_keeps_wf(s2, now, b2);
    }
}

/// Every punted packet keeps the switch state well-formed, and never loses an
/// LSDB record or replaces one by an older one.
pub proof fn lemma_punt_keeps_wf(s: SwitchView, ev: PuntEventView)
    requires
        switch_wf(s),
    ensures
        switch_wf(punt_step(s, ev).0),
        lsdb_advanced(s, punt_step(s, ev).0),
{
    let b = empty_batch(ACTION_BUDGET_BYTES as int);
    if ev.ip_proto == CONTROL_PROTO && ev.reason == PuntReason::Custom(CONTROL_REASON) {
        match spec_decode(ev.payload) {
            Some(MessageView::Hello(h)) => lemma_hello_keeps_wf(s, ev.now_ns, ev.ingress_port, h, b),
            _ => {},
        }
    } else if ev.reason == PuntReason::NoRoute {
        let p = s.ports[ev.ingress_port];
        let s1 = SwitchView {
            ports: s.ports.insert(ev.ingress_port, port_after_data(p, ev.now_ns, ev.ip_src)),
            local_customers: if p.role == PortRole::Customer {
                s.local_customers.insert(ev.ip_src, ev.ingress_port)
            } else {
                s.local_customers
            },
            ..s
        };
        lemma_refresh_keeps_wf(s1, ev.now_ns, b);
    }
}

/// Every timer tick keeps the switch state well-formed, and never loses an
/// LSDB record or replaces one by an older one.
pub proof fn lemma_timer_keeps_wf(s: SwitchView, now: u64)
    requires
        switch_wf(s),
    ensures
        switch_wf(timer_step(s, now).0),
        lsdb_advanced(s, timer_step(s, now).0),
{
    let b0 = empty_batch(ACTION_BUDGET_BYTES - TIMER_ACTION_ESTIMATE);
    let expired = sorted_ports(expired_ports(s.ports, now));
    let s1 = SwitchView { ports: after_expiry(s.ports, now), ..s };
    lemma_withdraw_ports_keeps_wf(s1, b0, expired);
    let (s2, b2) = withdraw_ports(s1, b0, expired);
    let (lc, changed) = learn_all(
        s2.local_customers,
        learned_pairs(s2.ports, now, sorted_ports(s2.ports.dom())),
    );
    let s3 = SwitchView { ports: after_classify(s2.ports, now), local_customers: lc, ..s2 };
    lemma_refresh_keeps_wf(s3, now, b2);
    let (s4, b4) = if expired.len() > 0 || changed {
        refresh_step(s3, now, b2)
    } else {
        (s3, b2)
    };
    lemma_recompute_keeps_wf(s4, b4);
}

// ---------------------------------------------------------------------------
// Anti-entropy rotation
// ---------------------------------------------------------------------------

/// The state `k` anti-entropy rounds later, with nothing else changed.
pub open spec fn rounds_later(s: SwitchView, k: int) -> SwitchView {
    SwitchView { sync_cursor: (s.sync_cursor + k) as usize, ..s }
}

/// The LSDB records that `k` consecutive anti-entropy rounds flood, in order.
pub open spec fn rotation(s: SwitchView, k: nat) -> Seq<u32> {
    Seq::new(k, |i: int| anti_entropy_origin(rounds_later(s, i)))
}

/// Where round `i` lands when the cursor starts at `c0` over `len` records.
proof fn lemma_rotation_index(c0: int, i: int, len: int)
    requires
        c0 >= 0,
        0 <= i < len,
    ensures
        0 <= c0 % len < len,
        (c0 + i) % len == if c0 % len + i < len { c0 % len + i } else { c0 % len + i - len },
{
    vstd::arithmetic::div_mod::lemma_mod_pos_bound(c0, len);
    vstd::arithmetic::div_mod::lemma_add_mod_noop(c0, i, len);
    vstd::arithmetic::div_mod::lemma_small_mod(i as nat, len as nat);
    let r = c0 % len;
    if r + i < len {
        vstd::arithmetic::div_mod::lemma_small_mod((r + i) as nat, len as nat);
    } else {
        vstd::arithmetic::div_mod::lemma_mod_add_multiples_vanish(r + i - len, len);
        vstd::arithmetic::div_mod::lemma_small_mod((r + i - len) as nat, len as nat);
    }
}

/// Anti-entropy rotates through the LSDB: while the LSDB and ports stay as
/// they are, each round floods the record after the previous one's and
/// advances the cursor by one, so the rounds of one full turn (as many as
/// there are records) flood every record exactly once.
pub proof fn lemma_anti_entropy_rotates(s: SwitchView, bs: Seq<BatchView>)
    requires
        s.lsdb.dom().finite(),
        s.lsdb.dom().len() >= 1,
        s.sync_cursor + s.lsdb.dom().len() <= usize::MAX,
        bs.len() == s.lsdb.dom().len(),
    ensures
        forall|i: int| 0 <= i < bs.len() ==> #[trigger] anti_entropy_step(rounds_later(s, i), bs[i]) == (
            rounds_later(s, i + 1),
            flooded(bs[i], s, s.lsdb[rotation(s, bs.len())[i]], None),
        ),
        forall|i: int| 0 <= i < bs.len() ==> #[trigger] rotation(s, bs.len())[i]
            == sorted_ids(s.lsdb.dom())[(s.sync_cursor + i) % (bs.len() as int)],
        rotation(s, bs.len()).no_duplicates(),
        rotation(s, bs.len()).to_set() == s.lsdb.dom(),
{
    let len = bs.len() as int;
    let c0 = s.sync_cursor as int;
    let os = sorted_ids(s.lsdb.dom());
    crate::ordered::lemma_sorted_ids_exists(s.lsdb.dom());
    assert(os.no_duplicates());
    os.unique_seq_to_set();
    assert(os.len() == len);
    let rot = rotation(s, bs.len());
    assert forall|i: int| 0 <= i < len implies #[trigger] rot[i] == os[(c0 + i) % len] by {
        lemma_rotation_index(c0, i, len);
        assert(rounds_later(s, i).sync_cursor == c0 + i);
        assert(rounds_later(s, i).lsdb == s.lsdb);
    }
    assert forall|i: int| 0 <= i < len implies #[trigger] anti_entropy_step(rounds_later(s, i), bs[i]) == (
        rounds_later(s, i + 1),
        flooded(bs[i], s, s.lsdb[rot[i]], None),
    ) by {
        let si = rounds_later(s, i);
        lemma_rotation_index(c0, i, len);
        assert(os.to_set().contains(os[(c0 + i) % len]));
        assert(!si.lsdb.dom().is_empty());
        assert(SwitchView { sync_cursor: wrapping_inc(si.sync_cursor), ..si } == rounds_later(s, i + 1));
    }
    assert forall|i: int, j: int| 0 <= i < len && 0 <= j < len && i != j implies rot[i] != rot[j] by {
        lemma_rotation_index(c0, i, len);
        lemma_rotation_index(c0, j, len);
    }
    assert forall|o: u32| rot.to_set().contains(o) <==> s.lsdb.dom().contains(o) by {
        if rot.to_set().contains(o) {
            let i = rot.index_of(o);
            lemma_rotation_index(c0, i, len);
            assert(os.to_set().contains(os[(c0 + i) % len]));
        }
        if s.lsdb.dom().contains(o) {
            assert(os.to_set().contains(o));
            let t = os.index_of(o);
            let r = c0 % len;
            vstd::arithmetic::div_mod::lemma_mod_pos_bound(c0, len);
            let i = if t >= r { t - r } else { t + len - r };
            lemma_rotation_index(c0, i, len);
            assert(rot[i] == o);
        }
    }
    assert(rot.to_set() =~= s.lsdb.dom());
}

} // verus!
