//! What the analyser finds in a capture.

use vstd::prelude::*;

use crate::time::{Interval, Timestamp};

verus! {

/// What happened in a capture.
#[derive(Debug, Clone)]
pub enum StpEvent {
    /// The first BPDU of a bridge.
    BridgeDiscovered {
        ts: Timestamp,
        bridge_id: String,
        bridge_mac: String,
        is_root: bool,
        vlan_id: Option<u16>,
    },
    /// The first root of a VLAN.
    RootElected {
        ts: Timestamp,
        root_id: String,
        root_mac: String,
        root_priority: u16,
        vlan_id: Option<u16>,
    },
    /// Another root.
    RootChanged {
        ts: Timestamp,
        old_root: String,
        new_root: String,
        new_root_mac: String,
        vlan_id: Option<u16>,
    },
    /// The topology change flag was set.
    TopologyChange {
        ts: Timestamp,
        sender_mac: String,
        bridge_id: String,
        vlan_id: Option<u16>,
        tc_count: usize,
    },
    /// A topology change notification, from a bridge that is not the root.
    TcnReceived {
        ts: Timestamp,
        sender_mac: String,
        vlan_id: Option<u16>,
    },
    /// Too many topology changes in a short time.
    TcStorm {
        ts: Timestamp,
        tc_count: usize,
        window_ms: Interval,
        vlan_id: Option<u16>,
    },
    /// A port took another role.
    PortRoleChange {
        ts: Timestamp,
        sender_mac: String,
        port_id: u16,
        old_role: String,
        new_role: String,
        vlan_id: Option<u16>,
    },
    /// A port took another state.
    PortStateChange {
        ts: Timestamp,
        sender_mac: String,
        port_id: u16,
        old_state: String,
        new_state: String,
        vlan_id: Option<u16>,
    },
    /// A BPDU worse than the bridge's own: a sign of a loop or of a wrong
    /// configuration.
    InferiorBpdu {
        ts: Timestamp,
        sender_mac: String,
        claimed_root: String,
        actual_root: String,
        vlan_id: Option<u16>,
    },
    /// The root changed several times.
    RootFlapping {
        ts: Timestamp,
        change_count: usize,
        window_ms: Interval,
        vlan_id: Option<u16>,
    },
    /// A BPDU, for the time line.
    BpduReceived {
        ts: Timestamp,
        sender_mac: String,
        root_id: String,
        root_cost: u32,
        bridge_id: String,
        port_id: u16,
        flags_tc: bool,
        is_rstp: bool,
        vlan_id: Option<u16>,
    },
}

/// An event, its texts as sequences of characters.
pub enum EventModel {
    /// The first BPDU of a bridge.
    BridgeDiscovered {
        ts: Timestamp,
        bridge_id: Seq<char>,
        bridge_mac: Seq<char>,
        is_root: bool,
        vlan_id: Option<u16>,
    },
    /// The first root of a VLAN.
    RootElected {
        ts: Timestamp,
        root_id: Seq<char>,
        root_mac: Seq<char>,
        root_priority: u16,
        vlan_id: Option<u16>,
    },
    /// Another root.
    RootChanged {
        ts: Timestamp,
        old_root: Seq<char>,
        new_root: Seq<char>,
        new_root_mac: Seq<char>,
        vlan_id: Option<u16>,
    },
    /// The topology change flag was set.
    TopologyChange {
        ts: Timestamp,
        sender_mac: Seq<char>,
        bridge_id: Seq<char>,
        vlan_id: Option<u16>,
        tc_count: usize,
    },
    /// A topology change notification, from a bridge that is not the root.
    TcnReceived {
        ts: Timestamp,
        sender_mac: Seq<char>,
        vlan_id: Option<u16>,
    },
    /// Too many topology changes in a short time.
    TcStorm {
        ts: Timestamp,
        tc_count: usize,
        window_ms: Interval,
        vlan_id: Option<u16>,
    },
    /// A port took another role.
    PortRoleChange {
        ts: Timestamp,
        sender_mac: Seq<char>,
        port_id: u16,
        old_role: Seq<char>,
        new_role: Seq<char>,
        vlan_id: Option<u16>,
    },
    /// A port took another state.
    PortStateChange {
        ts: Timestamp,
        sender_mac: Seq<char>,
        port_id: u16,
        old_state: Seq<char>,
        new_state: Seq<char>,
        vlan_id: Option<u16>,
    },
    /// A BPDU worse than the bridge's own: a sign of a loop or of a wrong
    /// configuration.
    InferiorBpdu {
        ts: Timestamp,
        sender_mac: Seq<char>,
        claimed_root: Seq<char>,
        actual_root: Seq<char>,
        vlan_id: Option<u16>,
    },
    /// The root changed several times.
    RootFlapping {
        ts: Timestamp,
        change_count: usize,
        window_ms: Interval,
        vlan_id: Option<u16>,
    },
    /// A BPDU, for the time line.
    BpduReceived {
        ts: Timestamp,
        sender_mac: Seq<char>,
        root_id: Seq<char>,
        root_cost: u32,
        bridge_id: Seq<char>,
        port_id: u16,
        flags_tc: bool,
        is_rstp: bool,
        vlan_id: Option<u16>,
    },
}

impl View for StpEvent {
    type V = EventModel;

    open spec fn view(&self) -> EventModel {
        match self {
            StpEvent::BridgeDiscovered { ts, bridge_id, bridge_mac, is_root, vlan_id } => EventModel::BridgeDiscovered {
                ts: *ts,
                bridge_id: bridge_id@,
                bridge_mac: bridge_mac@,
                is_root: *is_root,
                vlan_id: *vlan_id,
            },
            StpEvent::RootElected { ts, root_id, root_mac, root_priority, vlan_id } => EventModel::RootElected {
                ts: *ts,
                root_id: root_id@,
                root_mac: root_mac@,
                root_priority: *root_priority,
                vlan_id: *vlan_id,
            },
            StpEvent::RootChanged { ts, old_root, new_root, new_root_mac, vlan_id } => EventModel::RootChanged {
                ts: *ts,
                old_root: old_root@,
                new_root: new_root@,
                new_root_mac: new_root_mac@,
                vlan_id: *vlan_id,
            },
            StpEvent::TopologyChange { ts, sender_mac, bridge_id, vlan_id, tc_count } => EventModel::TopologyChange {
                ts: *ts,
                sender_mac: sender_mac@,
                bridge_id: bridge_id@,
                vlan_id: *vlan_id,
                tc_count: *tc_count,
            },
            StpEvent::TcnReceived { ts, sender_mac, vlan_id } => EventModel::TcnReceived {
                ts: *ts,
                sender_mac: sender_mac@,
                vlan_id: *vlan_id,
            },
            StpEvent::TcStorm { ts, tc_count, window_ms, vlan_id } => EventModel::TcStorm {
                ts: *ts,
                tc_count: *tc_count,
                window_ms: *window_ms,
                vlan_id: *vlan_id,
            },
            StpEvent::PortRoleChange { ts, sender_mac, port_id, old_role, new_role, vlan_id } => EventModel::PortRoleChange {
                ts: *ts,
                sender_mac: sender_mac@,
                port_id: *port_id,
                old_role: old_role@,
                new_role: new_role@,
                vlan_id: *vlan_id,
            },
            StpEvent::PortStateChange { ts, sender_mac, port_id, old_state, new_state, vlan_id } => EventModel::PortStateChange {
                ts: *ts,
                sender_mac: sender_mac@,
                port_id: *port_id,
                old_state: old_state@,
                new_state: new_state@,
                vlan_id: *vlan_id,
            },
            StpEvent::InferiorBpdu { ts, sender_mac, claimed_root, actual_root, vlan_id } => EventModel::InferiorBpdu {
                ts: *ts,
                sender_mac: sender_mac@,
                claimed_root: claimed_root@,
                actual_root: actual_root@,
                vlan_id: *vlan_id,
            },
            StpEvent::RootFlapping { ts, change_count, window_ms, vlan_id } => EventModel::RootFlapping {
                ts: *ts,
                change_count: *change_count,
                window_ms: *window_ms,
                vlan_id: *vlan_id,
            },
            StpEvent::BpduReceived { ts, sender_mac, root_id, root_cost, bridge_id, port_id, flags_tc, is_rstp, vlan_id } => EventModel::BpduReceived {
                ts: *ts,
                sender_mac: sender_mac@,
                root_id: root_id@,
                root_cost: *root_cost,
                bridge_id: bridge_id@,
                port_id: *port_id,
                flags_tc: *flags_tc,
                is_rstp: *is_rstp,
                vlan_id: *vlan_id,
            },
        }
    }
}

/// How much an event matters.
#[derive(Debug, Clone, Copy, PartialEq, Eq, Structural)]
pub enum Severity {
    Info,
    Warning,
    Critical,
}

impl EventModel {
    /// How much the event matters: storms and flapping are critical, other changes
    /// of root or topology are a warning, and all else is for information.
    pub open spec fn severity(self) -> Severity {
        if self is RootFlapping || self is TcStorm {
            Severity::Critical
        } else if self is InferiorBpdu || self is RootChanged || self is TcnReceived
            || self is TopologyChange {
            Severity::Warning
        } else {
            Severity::Info
        }
    }

    /// The VLAN of the event.
    pub open spec fn vlan_id(self) -> Option<u16> {
        match self {
            EventModel::BridgeDiscovered { vlan_id, .. } => vlan_id,
            EventModel::RootElected { vlan_id, .. } => vlan_id,
            EventModel::RootChanged { vlan_id, .. } => vlan_id,
            EventModel::TopologyChange { vlan_id, .. } => vlan_id,
            EventModel::TcnReceived { vlan_id, .. } => vlan_id,
            EventModel::TcStorm { vlan_id, .. } => vlan_id,
            EventModel::PortRoleChange { vlan_id, .. } => vlan_id,
            EventModel::PortStateChange { vlan_id, .. } => vlan_id,
            EventModel::InferiorBpdu { vlan_id, .. } => vlan_id,
            EventModel::RootFlapping { vlan_id, .. } => vlan_id,
            EventModel::BpduReceived { vlan_id, .. } => vlan_id,
        }
    }

    /// When the event happened.
    pub open spec fn time(self) -> Timestamp {
        match self {
            EventModel::BridgeDiscovered { ts, .. } => ts,
            EventModel::RootElected { ts, .. } => ts,
            EventModel::RootChanged { ts, .. } => ts,
            EventModel::TopologyChange { ts, .. } => ts,
            EventModel::TcnReceived { ts, .. } => ts,
            EventModel::TcStorm { ts, .. } => ts,
            EventModel::PortRoleChange { ts, .. } => ts,
            EventModel::PortStateChange { ts, .. } => ts,
            EventModel::InferiorBpdu { ts, .. } => ts,
            EventModel::RootFlapping { ts, .. } => ts,
            EventModel::BpduReceived { ts, .. } => ts,
        }
    }

    /// The number of the VLAN, 0 where it is not known.
    pub open spec fn vlan_number(self) -> u16 {
        match self.vlan_id() {
            Some(v) => v,
            None => 0,
        }
    }

    /// How many changes the event counts.
    pub open spec fn count(self) -> usize {
        match self {
            EventModel::TopologyChange { tc_count, .. } => tc_count,
            EventModel::TcStorm { tc_count, .. } => tc_count,
            EventModel::RootFlapping { change_count, .. } => change_count,
            _ => 0,
        }
    }
}

impl StpEvent {
    /// The VLAN of the event.
    pub fn vlan_id(&self) -> (r: Option<u16>)
        ensures
            r == self@.vlan_id(),
    {
        match self {
            StpEvent::BridgeDiscovered { vlan_id, .. } => *vlan_id,
            StpEvent::RootElected { vlan_id, .. } => *vlan_id,
            StpEvent::RootChanged { vlan_id, .. } => *vlan_id,
            StpEvent::TopologyChange { vlan_id, .. } => *vlan_id,
            StpEvent::TcnReceived { vlan_id, .. } => *vlan_id,
            StpEvent::TcStorm { vlan_id, .. } => *vlan_id,
            StpEvent::PortRoleChange { vlan_id, .. } => *vlan_id,
            StpEvent::PortStateChange { vlan_id, .. } => *vlan_id,
            StpEvent::InferiorBpdu { vlan_id, .. } => *vlan_id,
            StpEvent::RootFlapping { vlan_id, .. } => *vlan_id,
            StpEvent::BpduReceived { vlan_id, .. } => *vlan_id,
        }
    }

    /// How many changes the event counts.
    pub fn count(&self) -> (r: usize)
        ensures
            r == self@.count(),
    {
        match self {
            StpEvent::TopologyChange { tc_count, .. } => *tc_count,
            StpEvent::TcStorm { tc_count, .. } => *tc_count,
            StpEvent::RootFlapping { change_count, .. } => *change_count,
            _ => 0,
        }
    }
}

/// How much an event matters.
pub fn classify_event(event: &StpEvent) -> (r: Severity)
    ensures
        r == event@.severity(),
{
    match event {
        StpEvent::RootFlapping { .. } => Severity::Critical,
        StpEvent::TcStorm { .. } => Severity::Critical,
        StpEvent::InferiorBpdu { .. } => Severity::Warning,
        StpEvent::RootChanged { .. } => Severity::Warning,
        StpEvent::TcnReceived { .. } => Severity::Warning,
        StpEvent::TopologyChange { .. } => Severity::Warning,
        _ => Severity::Info,
    }
}

/// An event in the time line of a report.
#[derive(Debug)]
pub struct TimedEvent {
    pub ts: Timestamp,
    pub event: StpEvent,
    pub severity: Severity,
}

/// An event in a time line, its texts as sequences of characters.
pub struct TimedModel {
    pub ts: Timestamp,
    pub event: EventModel,
    pub severity: Severity,
}

impl View for TimedEvent {
    type V = TimedModel;

    open spec fn view(&self) -> TimedModel {
        TimedModel { ts: self.ts, event: self.event@, severity: self.severity }
    }
}

/// Events, their texts as sequences of characters.
pub open spec fn event_views(events: Seq<StpEvent>) -> Seq<EventModel> {
    events.map_values(|e: StpEvent| e@)
}

/// A time line, its texts as sequences of characters.
pub open spec fn timed_views(events: Seq<TimedEvent>) -> Seq<TimedModel> {
    events.map_values(|e: TimedEvent| e@)
}

/// What kind of event.
pub enum EventKind {
    BridgeDiscovered,
    RootElected,
    RootChanged,
    TopologyChange,
    TcnReceived,
    TcStorm,
    PortRoleChange,
    PortStateChange,
    InferiorBpdu,
    RootFlapping,
    BpduReceived,
}

impl EventModel {
    /// What kind of event this is.
    pub open spec fn kind(self) -> EventKind {
        match self {
            EventModel::BridgeDiscovered { .. } => EventKind::BridgeDiscovered,
            EventModel::RootElected { .. } => EventKind::RootElected,
            EventModel::RootChanged { .. } => EventKind::RootChanged,
            EventModel::TopologyChange { .. } => EventKind::TopologyChange,
            EventModel::TcnReceived { .. } => EventKind::TcnReceived,
            EventModel::TcStorm { .. } => EventKind::TcStorm,
            EventModel::PortRoleChange { .. } => EventKind::PortRoleChange,
            EventModel::PortStateChange { .. } => EventKind::PortStateChange,
            EventModel::InferiorBpdu { .. } => EventKind::InferiorBpdu,
            EventModel::RootFlapping { .. } => EventKind::RootFlapping,
            EventModel::BpduReceived { .. } => EventKind::BpduReceived,
        }
    }
}

/// Is there an event of the kind?
pub open spec fn tells(events: Seq<EventModel>, kind: EventKind) -> bool {
    exists|i: int| 0 <= i < events.len() && (#[trigger] events[i]).kind() == kind
}

/// Two lists that follow each other tell what either of them tells.
pub proof fn lemma_tells_concat(a: Seq<EventModel>, b: Seq<EventModel>, kind: EventKind)
    ensures
        tells(a + b, kind) == (tells(a, kind) || tells(b, kind)),
{
    let s = a + b;
    if tells(a, kind) {
        let i = choose|i: int| 0 <= i < a.len() && (#[trigger] a[i]).kind() == kind;
        assert(s[i].kind() == kind);
    }
    if tells(b, kind) {
        let i = choose|i: int| 0 <= i < b.len() && (#[trigger] b[i]).kind() == kind;
        assert(s[a.len() + i].kind() == kind);
    }
    if tells(s, kind) {
        let i = choose|i: int| 0 <= i < s.len() && (#[trigger] s[i]).kind() == kind;
        if i < a.len() {
            assert(a[i].kind() == kind);
        } else {
            assert(b[i - a.len()].kind() == kind);
        }
    }
}

/// Each event is of one kind, the one of its name.
pub proof fn lemma_kinds(e: EventModel)
    ensures
        e.kind() == EventKind::BridgeDiscovered <==> e is BridgeDiscovered,
        e.kind() == EventKind::RootElected <==> e is RootElected,
        e.kind() == EventKind::RootChanged <==> e is RootChanged,
        e.kind() == EventKind::TopologyChange <==> e is TopologyChange,
        e.kind() == EventKind::TcnReceived <==> e is TcnReceived,
        e.kind() == EventKind::TcStorm <==> e is TcStorm,
        e.kind() == EventKind::PortRoleChange <==> e is PortRoleChange,
        e.kind() == EventKind::PortStateChange <==> e is PortStateChange,
        e.kind() == EventKind::InferiorBpdu <==> e is InferiorBpdu,
        e.kind() == EventKind::RootFlapping <==> e is RootFlapping,
        e.kind() == EventKind::BpduReceived <==> e is BpduReceived,
{
}

/// Storms and flapping are critical and nothing else is. Changes of root or topology and
/// inferior BPDUs are a warning and nothing else is.
pub proof fn lemma_severities(e: EventModel)
    ensures
        e.severity() == Severity::Critical <==> e is TcStorm || e is RootFlapping,
        e.severity() == Severity::Warning <==> e is RootChanged || e is TopologyChange
            || e is TcnReceived || e is InferiorBpdu,
        e.severity() == Severity::Info <==> e is BridgeDiscovered || e is RootElected
            || e is PortRoleChange || e is PortStateChange || e is BpduReceived,
{
}

/// The count of an event is the number that it carries.
pub proof fn lemma_counts(e: EventModel)
    ensures
        e matches EventModel::TcStorm { tc_count, .. } ==> e.count() == tc_count,
        e matches EventModel::TopologyChange { tc_count, .. } ==> e.count() == tc_count,
        e matches EventModel::RootFlapping { change_count, .. } ==> e.count() == change_count,
{
}

/// The view of an event has the kind, the numbers and the texts of the event itself.
pub proof fn lemma_event_view(e: StpEvent)
    ensures
        e matches StpEvent::BridgeDiscovered { ts, bridge_id, bridge_mac, is_root, vlan_id } ==> {
            &&& e@ is BridgeDiscovered && e@.time() == ts && e@.vlan_id() == vlan_id
            &&& e@->BridgeDiscovered_bridge_id == bridge_id@
            &&& e@->BridgeDiscovered_bridge_mac == bridge_mac@
            &&& e@->is_root == is_root
        },
        e matches StpEvent::RootElected { ts, root_id, root_mac, root_priority, vlan_id } ==> {
            &&& e@ is RootElected && e@.time() == ts && e@.vlan_id() == vlan_id
            &&& e@->RootElected_root_id == root_id@
            &&& e@->root_mac == root_mac@
            &&& e@->root_priority == root_priority
        },
        e matches StpEvent::RootChanged { ts, old_root, new_root, new_root_mac, vlan_id } ==> {
            &&& e@ is RootChanged && e@.time() == ts && e@.vlan_id() == vlan_id
            &&& e@->old_root == old_root@
            &&& e@->new_root == new_root@
            &&& e@->new_root_mac == new_root_mac@
        },
        e matches StpEvent::TopologyChange { ts, sender_mac, bridge_id, vlan_id, tc_count } ==> {
            &&& e@ is TopologyChange && e@.time() == ts && e@.vlan_id() == vlan_id
            &&& e@->TopologyChange_sender_mac == sender_mac@
            &&& e@->TopologyChange_bridge_id == bridge_id@
            &&& e@->TopologyChange_tc_count == tc_count
        },
        e matches StpEvent::TcnReceived { ts, sender_mac, vlan_id } ==> {
            &&& e@ is TcnReceived && e@.time() == ts && e@.vlan_id() == vlan_id
            &&& e@->TcnReceived_sender_mac == sender_mac@
        },
        e matches StpEvent::TcStorm { ts, tc_count, window_ms, vlan_id } ==> {
            &&& e@ is TcStorm && e@.time() == ts && e@.vlan_id() == vlan_id
            &&& e@->TcStorm_tc_count == tc_count
            &&& e@->TcStorm_window_ms == window_ms
        },
        e matches StpEvent::PortRoleChange { ts, sender_mac, port_id, old_role, new_role, vlan_id } ==> {
            &&& e@ is PortRoleChange && e@.time() == ts && e@.vlan_id() == vlan_id
            &&& e@->PortRoleChange_sender_mac == sender_mac@
            &&& e@->PortRoleChange_port_id == port_id
            &&& e@->old_role == old_role@
            &&& e@->new_role == new_role@
        },
        e matches StpEvent::PortStateChange { ts, sender_mac, port_id, old_state, new_state, vlan_id }
            ==> {
            &&& e@ is PortStateChange && e@.time() == ts && e@.vlan_id() == vlan_id
            &&& e@->PortStateChange_sender_mac == sender_mac@
            &&& e@->PortStateChange_port_id == port_id
            &&& e@->old_state == old_state@
            &&& e@->new_state == new_state@
        },
        e matches StpEvent::InferiorBpdu { ts, sender_mac, claimed_root, actual_root, vlan_id } ==> {
            &&& e@ is InferiorBpdu && e@.time() == ts && e@.vlan_id() == vlan_id
            &&& e@->InferiorBpdu_sender_mac == sender_mac@
            &&& e@->claimed_root == claimed_root@
            &&& e@->actual_root == actual_root@
        },
        e matches StpEvent::RootFlapping { ts, change_count, window_ms, vlan_id } ==> {
            &&& e@ is RootFlapping && e@.time() == ts && e@.vlan_id() == vlan_id
            &&& e@->change_count == change_count
            &&& e@->RootFlapping_window_ms == window_ms
        },
        e matches StpEvent::BpduReceived {
            ts,
            sender_mac,
            root_id,
            root_cost,
            bridge_id,
            port_id,
            flags_tc,
            is_rstp,
            vlan_id,
        } ==> {
            &&& e@ is BpduReceived && e@.time() == ts && e@.vlan_id() == vlan_id
            &&& e@->BpduReceived_sender_mac == sender_mac@
            &&& e@->BpduReceived_root_id == root_id@
            &&& e@->root_cost == root_cost
            &&& e@->BpduReceived_bridge_id == bridge_id@
            &&& e@->BpduReceived_port_id == port_id
            &&& e@->flags_tc == flags_tc
            &&& e@->is_rstp == is_rstp
        },
{
}

/// The view of an entry in a time line has its time and severity and the view of its
/// event, and the view of a list has the views of its items in their places.
pub proof fn lemma_timed_view(events: Seq<TimedEvent>, i: int)
    requires
        0 <= i < events.len(),
    ensures
        timed_views(events).len() == events.len(),
        timed_views(events)[i].ts == events[i].ts,
        timed_views(events)[i].severity == events[i].severity,
        timed_views(events)[i].event == events[i].event@,
{
}

/// The view of a list of events has the views of its items in their places.
pub proof fn lemma_list_view(events: Seq<StpEvent>, i: int)
    requires
        0 <= i < events.len(),
    ensures
        event_views(events).len() == events.len(),
        event_views(events)[i] == events[i]@,
{
}

} // verus!
