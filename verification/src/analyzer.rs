//! The state of the bridges in a capture, and what changes in it.

use std::collections::{HashMap, HashSet};
use vstd::prelude::*;
use vstd::string::*;

use crate::binary64::Binary64;
use crate::bytes;
use crate::event;
use crate::net;
use crate::stp::{BridgeId, Bpdu, BpduFlags, BpduType, PortRole};
use crate::time;

pub use crate::event::{
    classify_event, EventModel, Severity, StpEvent, TimedEvent, TimedModel,
};
pub use crate::summary::ReportSummary;
pub use crate::time::{Interval, Timestamp};

verus! {

broadcast use vstd::std_specs::hash::group_hash_axioms;

/// So many topology changes in [`TC_WINDOW_MS`] are a storm.
pub const TC_STORM_THRESHOLD: usize = 10;

/// So many changes of root in [`ROOT_WINDOW_MS`] are flapping.
pub const ROOT_FLAP_THRESHOLD: usize = 3;

pub const TC_WINDOW_MS: u32 = 10_000;

pub const ROOT_WINDOW_MS: u32 = 30_000;

/// The state of a port (802.1w).
#[derive(Debug, Clone, Copy, PartialEq, Eq, Structural)]
pub enum PortState {
    Discarding,
    Learning,
    Forwarding,
}

impl PortState {
    /// The name of the state.
    pub open spec fn name(self) -> Seq<char> {
        match self {
            PortState::Discarding => "Discarding"@,
            PortState::Learning => "Learning"@,
            PortState::Forwarding => "Forwarding"@,
        }
    }

    /// The state that the flags of a BPDU show.
    pub open spec fn of_flags(flags: BpduFlags) -> PortState {
        if flags.forwarding {
            PortState::Forwarding
        } else if flags.learning {
            PortState::Learning
        } else {
            PortState::Discarding
        }
    }

    /// The name of the state.
    pub fn as_str(&self) -> (r: &'static str)
        ensures
            r@ == self.name(),
    {
        match self {
            PortState::Discarding => "Discarding",
            PortState::Learning => "Learning",
            PortState::Forwarding => "Forwarding",
        }
    }
}

/// What is known of a port.
#[derive(Debug, Clone, Copy)]
pub struct PortRecord {
    pub port_id: u16,
    pub role: PortRole,
    pub fsm_state: PortState,
    pub last_ts: Timestamp,
}

/// What is known of a bridge in one VLAN.
struct BridgeState {
    bridge_id: String,
    bridge_mac: String,
    ports: HashMap<u16, PortRecord>,
    last_bpdu_ts: Timestamp,
}

/// What is known of a bridge in one VLAN, its texts as sequences of characters.
pub struct BridgeModel {
    pub bridge_id: Seq<char>,
    pub bridge_mac: Seq<char>,
    pub ports: Map<u16, PortRecord>,
    pub last_bpdu_ts: Timestamp,
}

impl BridgeState {
    spec fn model(self) -> BridgeModel {
        BridgeModel {
            bridge_id: self.bridge_id@,
            bridge_mac: self.bridge_mac@,
            ports: self.ports@,
            last_bpdu_ts: self.last_bpdu_ts,
        }
    }
}

/// How often something happened since a time.
#[derive(Debug, Clone, Copy, PartialEq, Eq, Structural)]
pub struct Tracker {
    pub window_start: Timestamp,
    pub count: usize,
}

/// What the analyser remembers. A VLAN that is not known is number 0.
#[verifier::ext_equal]
pub struct AnalyzerModel {
    /// The root of each VLAN.
    pub roots: Map<u16, BridgeId>,
    /// The bridges, by [`bridge_key`].
    pub bridges: Map<u64, BridgeModel>,
    /// Topology changes in each VLAN.
    pub tc_windows: Map<u16, Tracker>,
    /// Changes of root in each VLAN.
    pub root_windows: Map<u16, Tracker>,
    /// The windows whose storm has been reported, by [`window_key`].
    pub storms: Set<u64>,
    /// The windows whose flapping has been reported, by [`window_key`].
    pub flaps: Set<u64>,
}

/// The number by which a bridge is found: its address and the VLAN.
pub open spec fn bridge_key(mac: Seq<u8>, vlan: u16) -> u64 {
    ((bytes::be32(mac, 0) * 0x1_0000 + bytes::be16(mac, 4)) * 0x1_0000 + vlan as nat) as u64
}

/// The number of a window: the VLAN, and the second in which it began.
pub open spec fn window_key(vlan: u16, sec: u32) -> u64 {
    (vlan * 0x1_0000_0000 + sec) as u64
}

/// Watches a capture for what happens to the spanning tree.
pub struct Analyzer {
    current_root: HashMap<u16, BridgeId>,
    bridges: HashMap<u64, BridgeState>,
    tc_tracker: HashMap<u16, Tracker>,
    root_tracker: HashMap<u16, Tracker>,
    storm_reported: HashSet<u64>,
    flap_reported: HashSet<u64>,
}

impl View for Analyzer {
    type V = AnalyzerModel;

    closed spec fn view(&self) -> AnalyzerModel {
        AnalyzerModel {
            roots: self.current_root@,
            bridges: self.bridges@.map_values(|b: BridgeState| b.model()),
            tc_windows: self.tc_tracker@,
            root_windows: self.root_tracker@,
            storms: self.storm_reported@,
            flaps: self.flap_reported@,
        }
    }
}

/// The VLAN of a BPDU.
pub open spec fn vlan_of(b: Bpdu) -> u16 {
    match b.vlan_id {
        Some(v) => v,
        None => 0,
    }
}

/// The counter of a VLAN before something is counted: nothing yet where the VLAN
/// has none.
pub open spec fn tracker_at(windows: Map<u16, Tracker>, vlan: u16, ts: Timestamp) -> Tracker {
    if windows.contains_key(vlan) {
        windows[vlan]
    } else {
        Tracker { window_start: ts, count: 0 }
    }
}

/// The counter after something was counted at `ts`. A window that is longer than
/// `limit_ms` gives way to a new one.
pub open spec fn counted(tracker: Tracker, ts: Timestamp, limit_ms: nat) -> Tracker {
    if ts.ms_since(tracker.window_start) > limit_ms * time::one() {
        Tracker { window_start: ts, count: 1 }
    } else {
        Tracker { count: (tracker.count + 1) as usize, ..tracker }
    }
}

impl AnalyzerModel {
    /// What is remembered before the first BPDU.
    pub open spec fn initial() -> AnalyzerModel {
        AnalyzerModel {
            roots: Map::empty(),
            bridges: Map::empty(),
            tc_windows: Map::empty(),
            root_windows: Map::empty(),
            storms: Set::empty(),
            flaps: Set::empty(),
        }
    }

    /// No counter is above `n`.
    pub open spec fn counts_within(self, n: int) -> bool {
        &&& forall|v: u16| #[trigger] self.tc_windows.contains_key(v) ==> self.tc_windows[v].count <= n
        &&& forall|v: u16| #[trigger]
            self.root_windows.contains_key(v) ==> self.root_windows[v].count <= n
    }

    /// The bridge of a BPDU is remembered, and reported where it is new.
    pub open spec fn meet_bridge(self, b: Bpdu, ts: Timestamp) -> (AnalyzerModel, Seq<EventModel>) {
        let key = bridge_key(b.sender_mac@, vlan_of(b));
        let mac = net::mac_text(b.sender_mac@);
        if self.bridges.contains_key(key) {
            let bridge = BridgeModel { last_bpdu_ts: ts, ..self.bridges[key] };
            (AnalyzerModel { bridges: self.bridges.insert(key, bridge), ..self }, Seq::empty())
        } else {
            let bridge = BridgeModel {
                bridge_id: b.bridge_id.text(),
                bridge_mac: mac,
                ports: Map::empty(),
                last_bpdu_ts: ts,
            };
            (
                AnalyzerModel { bridges: self.bridges.insert(key, bridge), ..self },
                seq![
                    EventModel::BridgeDiscovered {
                        ts,
                        bridge_id: b.bridge_id.text(),
                        bridge_mac: mac,
                        is_root: b.claims_root(),
                        vlan_id: b.vlan_id,
                    },
                ],
            )
        }
    }

    /// The root that a BPDU names is remembered. The first of a VLAN is elected;
    /// another one is a change, and changes that follow each other closely are
    /// flapping, which is reported once in a window.
    pub open spec fn follow_root(self, b: Bpdu, ts: Timestamp) -> (AnalyzerModel, Seq<EventModel>) {
        let vlan = vlan_of(b);
        let root = b.root_id.text();
        let roots = self.roots.insert(vlan, b.root_id);
        if !self.roots.contains_key(vlan) {
            (
                AnalyzerModel { roots, ..self },
                seq![
                    EventModel::RootElected {
                        ts,
                        root_id: root,
                        root_mac: net::mac_text(b.root_id.mac@),
                        root_priority: b.root_id.priority_part() as u16,
                        vlan_id: b.vlan_id,
                    },
                ],
            )
        } else if self.roots[vlan].text() != root {
            let before = tracker_at(self.root_windows, vlan, ts);
            let tracker = counted(before, ts, ROOT_WINDOW_MS as nat);
            let key = window_key(vlan, tracker.window_start.sec);
            let flapping = tracker.count >= ROOT_FLAP_THRESHOLD && !self.flaps.contains(key);
            let changed = EventModel::RootChanged {
                ts,
                old_root: self.roots[vlan].text(),
                new_root: root,
                new_root_mac: net::mac_text(b.root_id.mac@),
                vlan_id: b.vlan_id,
            };
            let report = EventModel::RootFlapping {
                ts,
                change_count: tracker.count,
                window_ms: Interval { start: before.window_start, end: ts },
                vlan_id: b.vlan_id,
            };
            (
                AnalyzerModel {
                    roots,
                    root_windows: self.root_windows.insert(vlan, tracker),
                    flaps: if flapping {
                        self.flaps.insert(key)
                    } else {
                        self.flaps
                    },
                    ..self
                },
                if flapping {
                    seq![changed, report]
                } else {
                    seq![changed]
                },
            )
        } else {
            (self, Seq::empty())
        }
    }

    /// A topology change is counted. Changes that follow each other closely are a
    /// storm, which is reported once in a window.
    pub open spec fn count_change(self, b: Bpdu, ts: Timestamp) -> (
        AnalyzerModel,
        Seq<EventModel>,
    ) {
        if !b.flags.tc {
            (self, Seq::empty())
        } else {
            let vlan = vlan_of(b);
            let before = tracker_at(self.tc_windows, vlan, ts);
            let tracker = counted(before, ts, TC_WINDOW_MS as nat);
            let key = window_key(vlan, tracker.window_start.sec);
            let storm = tracker.count >= TC_STORM_THRESHOLD && !self.storms.contains(key);
            let change = EventModel::TopologyChange {
                ts,
                sender_mac: net::mac_text(b.sender_mac@),
                bridge_id: b.bridge_id.text(),
                vlan_id: b.vlan_id,
                tc_count: tracker.count,
            };
            let report = EventModel::TcStorm {
                ts,
                tc_count: tracker.count,
                window_ms: Interval { start: before.window_start, end: ts },
                vlan_id: b.vlan_id,
            };
            (
                AnalyzerModel {
                    tc_windows: self.tc_windows.insert(vlan, tracker),
                    storms: if storm {
                        self.storms.insert(key)
                    } else {
                        self.storms
                    },
                    ..self
                },
                if storm {
                    seq![change, report]
                } else {
                    seq![change]
                },
            )
        }
    }

    /// The port that sent a BPDU is remembered. A role or a state other than
    /// before is reported, and the first state of a port.
    pub open spec fn update_port(self, b: Bpdu, ts: Timestamp) -> (AnalyzerModel, Seq<EventModel>) {
        let key = bridge_key(b.sender_mac@, vlan_of(b));
        let bridge = self.bridges[key];
        let role = b.flags.port_role;
        let state = PortState::of_flags(b.flags);
        let known = bridge.ports.contains_key(b.port_id);
        let old = bridge.ports[b.port_id];
        let role_change = EventModel::PortRoleChange {
            ts,
            sender_mac: net::mac_text(b.sender_mac@),
            port_id: b.port_id,
            old_role: old.role.name(),
            new_role: role.name(),
            vlan_id: b.vlan_id,
        };
        let state_change = EventModel::PortStateChange {
            ts,
            sender_mac: net::mac_text(b.sender_mac@),
            port_id: b.port_id,
            old_state: if known {
                old.fsm_state.name()
            } else {
                "Unknown"@
            },
            new_state: state.name(),
            vlan_id: b.vlan_id,
        };
        let record = PortRecord { port_id: b.port_id, role, fsm_state: state, last_ts: ts };
        (
            AnalyzerModel {
                bridges: self.bridges.insert(
                    key,
                    BridgeModel { ports: bridge.ports.insert(b.port_id, record), ..bridge },
                ),
                ..self
            },
            (if known && old.role != role {
                seq![role_change]
            } else {
                Seq::empty()
            }) + (if !known || old.fsm_state != state {
                seq![state_change]
            } else {
                Seq::empty()
            }),
        )
    }

    /// The BPDU claims another root than its VLAN has, and a worse one.
    pub open spec fn outranks_claim(self, b: Bpdu) -> bool {
        let vlan = vlan_of(b);
        &&& self.roots.contains_key(vlan)
        &&& self.roots[vlan].text() != b.root_id.text()
        &&& self.roots[vlan].number() < b.root_id.number()
    }

    /// The claim of a root that is worse than the known one is reported.
    pub open spec fn judge_claim(self, b: Bpdu, ts: Timestamp) -> Seq<EventModel> {
        if self.outranks_claim(b) {
            seq![
                EventModel::InferiorBpdu {
                    ts,
                    sender_mac: net::mac_text(b.sender_mac@),
                    claimed_root: b.root_id.text(),
                    actual_root: self.roots[vlan_of(b)].text(),
                    vlan_id: b.vlan_id,
                },
            ]
        } else {
            Seq::empty()
        }
    }

    /// What a BPDU changes and reports. A claim is held against the root that was
    /// known before the BPDU. A topology change notification is reported
    /// and changes nothing.
    pub open spec fn step(self, b: Bpdu, ts: Timestamp) -> (AnalyzerModel, Seq<EventModel>) {
        if b.bpdu_type == BpduType::TcnBpdu {
            (
                self,
                seq![
                    EventModel::TcnReceived {
                        ts,
                        sender_mac: net::mac_text(b.sender_mac@),
                        vlan_id: b.vlan_id,
                    },
                ],
            )
        } else {
            let received = EventModel::BpduReceived {
                ts,
                sender_mac: net::mac_text(b.sender_mac@),
                root_id: b.root_id.text(),
                root_cost: b.root_path_cost,
                bridge_id: b.bridge_id.text(),
                port_id: b.port_id,
                flags_tc: b.flags.tc,
                is_rstp: b.is_rstp,
                vlan_id: b.vlan_id,
            };
            let (met, discovered) = self.meet_bridge(b, ts);
            let (rooted, root_events) = met.follow_root(b, ts);
            let (changed, tc_events) = rooted.count_change(b, ts);
            let (last, port_events) = changed.update_port(b, ts);
            (
                last,
                seq![received] + discovered + root_events + tc_events + port_events
                    + self.judge_claim(b, ts),
            )
        }
    }
}

/// Appends an event to a list.
fn report(events: &mut Vec<StpEvent>, event: StpEvent)
    ensures
        event::event_views(final(events)@) == event::event_views(old(events)@).push(event@),
{
    events.push(event);
    assert(event::event_views(events@) =~= event::event_views(old(events)@).push(event@));
}

/// The number by which a bridge is found.
fn key_of_bridge(mac: &[u8; 6], vlan: u16) -> (r: u64)
    ensures
        r == bridge_key(mac@, vlan),
{
    let mut key: u64 = mac[0] as u64;
    key = key * 256 + mac[1] as u64;
    key = key * 256 + mac[2] as u64;
    key = key * 256 + mac[3] as u64;
    key = key * 256 + mac[4] as u64;
    key = key * 256 + mac[5] as u64;
    key * 0x1_0000 + vlan as u64
}

/// The number of a window.
fn key_of_window(vlan: u16, sec: u32) -> (r: u64)
    ensures
        r == window_key(vlan, sec),
{
    vlan as u64 * 0x1_0000_0000 + sec as u64
}

/// Counts something at `ts`. The second result is the counter as it was.
fn count_at(windows: &mut HashMap<u16, Tracker>, vlan: u16, ts: Timestamp, limit_ms: u32) -> (r: (
    Tracker,
    Tracker,
))
    requires
        old(windows)@.contains_key(vlan) ==> old(windows)@[vlan].count < usize::MAX,
    ensures
        r.1 == tracker_at(old(windows)@, vlan, ts),
        r.0 == counted(r.1, ts, limit_ms as nat),
        final(windows)@ == old(windows)@.insert(vlan, r.0),
{
    let before = match windows.get(&vlan) {
        Some(tracker) => *tracker,
        None => Tracker { window_start: ts, count: 0 },
    };
    let elapsed = ts.diff_ms(&before.window_start);
    let tracker = if Binary64::from_u32(limit_ms).less_than(elapsed) {
        Tracker { window_start: ts, count: 1 }
    } else {
        Tracker { window_start: before.window_start, count: before.count + 1 }
    };
    windows.insert(vlan, tracker);
    (tracker, before)
}

impl Analyzer {
    /// An analyser that has seen nothing.
    pub fn new() -> (r: Self)
        ensures
            r@ == AnalyzerModel::initial(),
    {
        let r = Analyzer {
            current_root: HashMap::new(),
            bridges: HashMap::new(),
            tc_tracker: HashMap::new(),
            root_tracker: HashMap::new(),
            storm_reported: HashSet::new(),
            flap_reported: HashSet::new(),
        };
        assert(r@ =~= AnalyzerModel::initial());
        r
    }

    fn meet_bridge(&mut self, bpdu: &Bpdu, vlan: u16, ts: Timestamp, events: &mut Vec<StpEvent>)
        requires
            vlan == vlan_of(*bpdu),
        ensures
            final(self)@ == old(self)@.meet_bridge(*bpdu, ts).0,
            event::event_views(final(events)@) == event::event_views(old(events)@) + old(
                self,
            )@.meet_bridge(*bpdu, ts).1,
    {
        let key: u64 = key_of_bridge(&bpdu.sender_mac, vlan);
        let ghost was = self@;
        match self.bridges.remove(&key) {
            Some(mut bridge) => {
                bridge.last_bpdu_ts = ts;
                self.bridges.insert(key, bridge);
                assert(self@.bridges =~= was.meet_bridge(*bpdu, ts).0.bridges);
            },
            None => {
                let bridge = BridgeState {
                    bridge_id: bpdu.bridge_id.to_string(),
                    bridge_mac: bpdu.sender_mac_str(),
                    ports: HashMap::new(),
                    last_bpdu_ts: ts,
                };
                self.bridges.insert(key, bridge);
                assert(self@.bridges =~= was.meet_bridge(*bpdu, ts).0.bridges);
                report(
                    events,
                    StpEvent::BridgeDiscovered {
                        ts,
                        bridge_id: bpdu.bridge_id.to_string(),
                        bridge_mac: bpdu.sender_mac_str(),
                        is_root: bpdu.is_root_bridge(),
                        vlan_id: bpdu.vlan_id,
                    },
                );
            },
        }
        assert(event::event_views(events@) =~= event::event_views(old(events)@) + was.meet_bridge(
            *bpdu,
            ts,
        ).1);
    }

    fn follow_root(&mut self, bpdu: &Bpdu, vlan: u16, ts: Timestamp, events: &mut Vec<StpEvent>)
        requires
            vlan == vlan_of(*bpdu),
            old(self)@.root_windows.contains_key(vlan) ==> old(self)@.root_windows[vlan].count < usize::MAX,
        ensures
            final(self)@ == old(self)@.follow_root(*bpdu, ts).0,
            event::event_views(final(events)@) == event::event_views(old(events)@) + old(
                self,
            )@.follow_root(*bpdu, ts).1,
    {
        let root = bpdu.root_id.to_string();
        let ghost was = self@;
        let current: Option<BridgeId> = match self.current_root.get(&vlan) {
            Some(known) => Some(*known),
            None => None,
        };
        match current {
            None => {
                self.current_root.insert(vlan, bpdu.root_id);
                report(
                    events,
                    StpEvent::RootElected {
                        ts,
                        root_id: root,
                        root_mac: bpdu.root_id.mac_str(),
                        root_priority: bpdu.root_id.bridge_priority(),
                        vlan_id: bpdu.vlan_id,
                    },
                );
            },
            Some(known) => {
                let old_root = known.to_string();
                if !(old_root == root) {
                    self.current_root.insert(vlan, bpdu.root_id);
                    report(
                        events,
                        StpEvent::RootChanged {
                            ts,
                            old_root,
                            new_root: root,
                            new_root_mac: bpdu.root_id.mac_str(),
                            vlan_id: bpdu.vlan_id,
                        },
                    );
                    let (tracker, before) = count_at(
                        &mut self.root_tracker,
                        vlan,
                        ts,
                        ROOT_WINDOW_MS,
                    );
                    let key: u64 = key_of_window(vlan, tracker.window_start.sec);
                    if tracker.count >= ROOT_FLAP_THRESHOLD && !self.flap_reported.contains(&key) {
                        self.flap_reported.insert(key);
                        report(
                            events,
                            StpEvent::RootFlapping {
                                ts,
                                change_count: tracker.count,
                                window_ms: Interval { start: before.window_start, end: ts },
                                vlan_id: bpdu.vlan_id,
                            },
                        );
                    }
                }
            },
        }
        assert(self@ =~= was.follow_root(*bpdu, ts).0);
        assert(event::event_views(events@) =~= event::event_views(old(events)@) + was.follow_root(
            *bpdu,
            ts,
        ).1);
    }

    fn count_change(&mut self, bpdu: &Bpdu, vlan: u16, ts: Timestamp, events: &mut Vec<StpEvent>)
        requires
            vlan == vlan_of(*bpdu),
            old(self)@.tc_windows.contains_key(vlan) ==> old(self)@.tc_windows[vlan].count < usize::MAX,
        ensures
            final(self)@ == old(self)@.count_change(*bpdu, ts).0,
            event::event_views(final(events)@) == event::event_views(old(events)@) + old(
                self,
            )@.count_change(*bpdu, ts).1,
    {
        let ghost was = self@;
        if bpdu.flags.tc {
            let (tracker, before) = count_at(&mut self.tc_tracker, vlan, ts, TC_WINDOW_MS);
            report(
                events,
                StpEvent::TopologyChange {
                    ts,
                    sender_mac: bpdu.sender_mac_str(),
                    bridge_id: bpdu.bridge_id.to_string(),
                    vlan_id: bpdu.vlan_id,
                    tc_count: tracker.count,
                },
            );
            let key: u64 = key_of_window(vlan, tracker.window_start.sec);
            if tracker.count >= TC_STORM_THRESHOLD && !self.storm_reported.contains(&key) {
                self.storm_reported.insert(key);
                report(
                    events,
                    StpEvent::TcStorm {
                        ts,
                        tc_count: tracker.count,
                        window_ms: Interval { start: before.window_start, end: ts },
                        vlan_id: bpdu.vlan_id,
                    },
                );
            }
        }
        assert(self@ =~= was.count_change(*bpdu, ts).0);
        assert(event::event_views(events@) =~= event::event_views(old(events)@) + was.count_change(
            *bpdu,
            ts,
        ).1);
    }

    fn update_port(&mut self, bpdu: &Bpdu, vlan: u16, ts: Timestamp, events: &mut Vec<StpEvent>)
        requires
            vlan == vlan_of(*bpdu),
            old(self)@.bridges.contains_key(bridge_key(bpdu.sender_mac@, vlan)),
        ensures
            final(self)@ == old(self)@.update_port(*bpdu, ts).0,
            event::event_views(final(events)@) == event::event_views(old(events)@) + old(
                self,
            )@.update_port(*bpdu, ts).1,
    {
        let key: u64 = key_of_bridge(&bpdu.sender_mac, vlan);
        let ghost was = self@;
        let role = bpdu.flags.port_role;
        let state = if bpdu.flags.forwarding {
            PortState::Forwarding
        } else if bpdu.flags.learning {
            PortState::Learning
        } else {
            PortState::Discarding
        };
        if let Some(mut bridge) = self.bridges.remove(&key) {
            let old_port: Option<PortRecord> = match bridge.ports.get(&bpdu.port_id) {
                Some(port) => Some(*port),
                None => None,
            };
            let old_state = match old_port {
                Some(port) => {
                    if port.role != role {
                        report(
                            events,
                            StpEvent::PortRoleChange {
                                ts,
                                sender_mac: bpdu.sender_mac_str(),
                                port_id: bpdu.port_id,
                                old_role: port.role.as_str().to_string(),
                                new_role: role.as_str().to_string(),
                                vlan_id: bpdu.vlan_id,
                            },
                        );
                    }
                    port.fsm_state.as_str()
                },
                None => "Unknown",
            };
            let changed = match old_port {
                Some(port) => port.fsm_state != state,
                None => true,
            };
            if changed {
                report(
                    events,
                    StpEvent::PortStateChange {
                        ts,
                        sender_mac: bpdu.sender_mac_str(),
                        port_id: bpdu.port_id,
                        old_state: old_state.to_string(),
                        new_state: state.as_str().to_string(),
                        vlan_id: bpdu.vlan_id,
                    },
                );
            }
            bridge.ports.insert(
                bpdu.port_id,
                PortRecord { port_id: bpdu.port_id, role, fsm_state: state, last_ts: ts },
            );
            self.bridges.insert(key, bridge);
        }
        assert(self@.bridges =~= was.update_port(*bpdu, ts).0.bridges);
        assert(self@ =~= was.update_port(*bpdu, ts).0);
        assert(event::event_views(events@) =~= event::event_views(old(events)@) + was.update_port(
            *bpdu,
            ts,
        ).1);
    }

    fn judge_claim(&self, bpdu: &Bpdu, vlan: u16, ts: Timestamp) -> (r: Option<StpEvent>)
        requires
            vlan == vlan_of(*bpdu),
        ensures
            match r {
                Some(event) => self@.judge_claim(*bpdu, ts) == seq![event@],
                None => self@.judge_claim(*bpdu, ts) == Seq::<EventModel>::empty(),
            },
    {
        match self.current_root.get(&vlan) {
            Some(known) => {
                let actual_root = known.to_string();
                let claimed_root = bpdu.root_id.to_string();
                if !(actual_root == claimed_root) && known.to_u64() < bpdu.root_id.to_u64() {
                    Some(
                        StpEvent::InferiorBpdu {
                            ts,
                            sender_mac: bpdu.sender_mac_str(),
                            claimed_root,
                            actual_root,
                            vlan_id: bpdu.vlan_id,
                        },
                    )
                } else {
                    None
                }
            },
            None => None,
        }
    }

    /// Takes note of a BPDU that was captured at `ts`, and tells what it changes.
    pub fn process(&mut self, bpdu: &Bpdu, ts: Timestamp) -> (r: Vec<StpEvent>)
        requires
            old(self)@.counts_within(usize::MAX - 1),
        ensures
            final(self)@ == old(self)@.step(*bpdu, ts).0,
            event::event_views(r@) == old(self)@.step(*bpdu, ts).1,
    {
        let mut events: Vec<StpEvent> = Vec::new();
        let ghost was = self@;
        let vlan: u16 = match bpdu.vlan_id {
            Some(v) => v,
            None => 0,
        };
        assert(event::event_views(events@) =~= Seq::empty());
        if bpdu.bpdu_type == BpduType::TcnBpdu {
            report(
                &mut events,
                StpEvent::TcnReceived {
                    ts,
                    sender_mac: bpdu.sender_mac_str(),
                    vlan_id: bpdu.vlan_id,
                },
            );
            assert(event::event_views(events@) =~= was.step(*bpdu, ts).1);
            return events;
        }
        report(
            &mut events,
            StpEvent::BpduReceived {
                ts,
                sender_mac: bpdu.sender_mac_str(),
                root_id: bpdu.root_id.to_string(),
                root_cost: bpdu.root_path_cost,
                bridge_id: bpdu.bridge_id.to_string(),
                port_id: bpdu.port_id,
                flags_tc: bpdu.flags.tc,
                is_rstp: bpdu.is_rstp,
                vlan_id: bpdu.vlan_id,
            },
        );
        let inferior = self.judge_claim(bpdu, vlan, ts);
        self.meet_bridge(bpdu, vlan, ts, &mut events);
        self.follow_root(bpdu, vlan, ts, &mut events);
        self.count_change(bpdu, vlan, ts, &mut events);
        self.update_port(bpdu, vlan, ts, &mut events);
        if let Some(event) = inferior {
            report(&mut events, event);
        }
        assert(event::event_views(events@) =~= was.step(*bpdu, ts).1);
        events
    }

    /// What is still open at the end of a capture: nothing, since the spanning
    /// tree knows no transactions.
    pub fn finalize(&self, _last_ts: Timestamp) -> (r: Vec<StpEvent>)
        ensures
            r@.len() == 0,
    {
        Vec::new()
    }
}

/// A bridge in a summary.
#[derive(Debug)]
pub struct BridgeSummary {
    pub bridge_id: String,
    pub bridge_mac: String,
    pub port_count: usize,
}

/// The root of a VLAN in a summary.
#[derive(Debug)]
pub struct RootSummary {
    pub vlan_id: Option<u16>,
    pub root_id: String,
}

/// The bridges and roots that were seen, in no particular order.
#[derive(Debug)]
pub struct TopologySnapshot {
    pub bridges: Vec<BridgeSummary>,
    pub roots: Vec<RootSummary>,
}

impl BridgeSummary {
    /// The summary is that of `bridge`.
    pub open spec fn sums_up(self, bridge: BridgeModel) -> bool {
        &&& self.bridge_id@ == bridge.bridge_id
        &&& self.bridge_mac@ == bridge.bridge_mac
        &&& self.port_count == bridge.ports.len()
    }
}

impl RootSummary {
    /// The summary names `root` as the root of `vlan`; number 0 stands for a VLAN
    /// that is not known.
    pub open spec fn names(self, vlan: u16, root: Seq<char>) -> bool {
        &&& self.vlan_id == (if vlan == 0 {
            None::<u16>
        } else {
            Some(vlan)
        })
        &&& self.root_id@ == root
    }
}

/// `keys` names each item of `dom` once, and there are `len` of them.
pub open spec fn enumerates<K>(keys: Seq<K>, dom: Set<K>, len: nat) -> bool {
    keys.no_duplicates() && keys.to_set() == dom && keys.len() == len
}

impl TopologySnapshot {
    /// Each bridge has one summary, and there are no others.
    pub open spec fn lists_bridges(self, bridges: Map<u64, BridgeModel>) -> bool {
        exists|keys: Seq<u64>| #[trigger]
            enumerates(keys, bridges.dom(), self.bridges@.len()) && forall|i: int|
                0 <= i < keys.len() ==> (#[trigger] self.bridges@[i]).sums_up(bridges[keys[i]])
    }

    /// The root of each VLAN is named once, and there are no others.
    pub open spec fn lists_roots(self, roots: Map<u16, BridgeId>) -> bool {
        exists|keys: Seq<u16>| #[trigger]
            enumerates(keys, roots.dom(), self.roots@.len()) && forall|i: int|
                0 <= i < keys.len() ==> (#[trigger] self.roots@[i]).names(
                    keys[i],
                    roots[keys[i]].text(),
                )
    }
}

/// The keys of a map, in no particular order.
fn keys_of<K: Copy + Eq + std::hash::Hash, V>(map: &HashMap<K, V>) -> (r: Vec<K>)
    requires
        vstd::std_specs::hash::obeys_key_model::<K>(),
    ensures
        enumerates(r@, map@.dom(), r@.len()),
{
    let mut keys: Vec<K> = Vec::new();
    for key in it: map.keys()
        invariant
            keys@ == it.seq().unref().take(it.index() as int),
            it.seq().unref().no_duplicates(),
            it.seq().unref().to_set() == map@.dom(),
            it.index() == it.seq().len() ==> keys@ == it.seq().unref(),
    {
        keys.push(*key);
        assert(keys@ =~= it.seq().unref().take(it.index() + 1));
    }
    keys
}

impl Analyzer {
    /// The bridges and roots that were seen, in no particular order.
    pub fn get_topology(&self) -> (r: TopologySnapshot)
        ensures
            r.lists_bridges(self@.bridges),
            r.lists_roots(self@.roots),
    {
        let bridge_keys = keys_of(&self.bridges);
        assert(self@.bridges.dom() =~= self.bridges@.dom());
        let mut bridges: Vec<BridgeSummary> = Vec::new();
        let mut i: usize = 0;
        while i < bridge_keys.len()
            invariant
                i <= bridge_keys@.len(),
                bridges@.len() == i,
                enumerates(bridge_keys@, self@.bridges.dom(), bridge_keys@.len()),
                forall|j: int|
                    0 <= j < i ==> (#[trigger] bridges@[j]).sums_up(self@.bridges[bridge_keys@[j]]),
            decreases bridge_keys@.len() - i,
        {
            let key: u64 = bridge_keys[i];
            assert(bridge_keys@.to_set().contains(key));
            if let Some(bridge) = self.bridges.get(&key) {
                bridges.push(
                    BridgeSummary {
                        bridge_id: bridge.bridge_id.clone(),
                        bridge_mac: bridge.bridge_mac.clone(),
                        port_count: bridge.ports.len(),
                    },
                );
            }
            i = i + 1;
        }
        let vlans = keys_of(&self.current_root);
        assert(self@.roots.dom() =~= self.current_root@.dom());
        let mut roots: Vec<RootSummary> = Vec::new();
        let mut n: usize = 0;
        while n < vlans.len()
            invariant
                n <= vlans@.len(),
                roots@.len() == n,
                enumerates(vlans@, self@.roots.dom(), vlans@.len()),
                forall|j: int|
                    0 <= j < n ==> (#[trigger] roots@[j]).names(
                        vlans@[j],
                        self@.roots[vlans@[j]].text(),
                    ),
            decreases vlans@.len() - n,
        {
            let vlan: u16 = vlans[n];
            assert(vlans@.to_set().contains(vlan));
            if let Some(root) = self.current_root.get(&vlan) {
                roots.push(
                    RootSummary {
                        vlan_id: if vlan == 0 {
                            None
                        } else {
                            Some(vlan)
                        },
                        root_id: root.to_string(),
                    },
                );
            }
            n = n + 1;
        }
        let r = TopologySnapshot { bridges, roots };
        assert(enumerates(bridge_keys@, self@.bridges.dom(), r.bridges@.len()));
        assert(enumerates(vlans@, self@.roots.dom(), r.roots@.len()));
        r
    }
}

/// A snapshot that lists roots has an entry for each VLAN with a root, under its number, or
/// under none where the number is 0, with the text of the root; and it has no other.
pub proof fn lemma_roots_listed(t: TopologySnapshot, roots: Map<u16, BridgeId>, vlan: u16, n: int)
    requires
        t.lists_roots(roots),
    ensures
        t.roots@.len() == roots.dom().len(),
        roots.contains_key(vlan) ==> exists|i: int|
            0 <= i < t.roots@.len() && (#[trigger] t.roots@[i]).root_id@ == roots[vlan].text()
                && t.roots@[i].vlan_id == (if vlan == 0 {
                None
            } else {
                Some(vlan)
            }),
        0 <= n < t.roots@.len() ==> {
            let v = match t.roots@[n].vlan_id {
                Some(v) => v,
                None => 0,
            };
            roots.contains_key(v) && t.roots@[n].root_id@ == roots[v].text()
        },
{
    let keys = choose|keys: Seq<u16>| #[trigger]
        enumerates(keys, roots.dom(), t.roots@.len()) && forall|i: int|
            0 <= i < keys.len() ==> (#[trigger] t.roots@[i]).names(keys[i], roots[keys[i]].text());
    keys.unique_seq_to_set();
    if roots.contains_key(vlan) {
        assert(keys.to_set().contains(vlan));
        let i = keys.index_of(vlan);
        assert(t.roots@[i].names(keys[i], roots[keys[i]].text()));
    }
    if 0 <= n < t.roots@.len() {
        assert(t.roots@[n].names(keys[n], roots[keys[n]].text()));
        assert(keys.contains(keys[n]));
        assert(keys.to_set().contains(keys[n]));
    }
}

/// A snapshot that lists bridges has an entry for each of them, with its identifier, its
/// address and the number of its ports; and it has no other.
pub proof fn lemma_bridges_listed(
    t: TopologySnapshot,
    bridges: Map<u64, BridgeModel>,
    key: u64,
    n: int,
)
    requires
        t.lists_bridges(bridges),
    ensures
        t.bridges@.len() == bridges.dom().len(),
        bridges.contains_key(key) ==> exists|i: int|
            0 <= i < t.bridges@.len() && (#[trigger] t.bridges@[i]).bridge_id@
                == bridges[key].bridge_id && t.bridges@[i].bridge_mac@ == bridges[key].bridge_mac
                && t.bridges@[i].port_count == bridges[key].ports.dom().len(),
        0 <= n < t.bridges@.len() ==> exists|k: u64| #[trigger]
            bridges.contains_key(k) && t.bridges@[n].bridge_id@ == bridges[k].bridge_id
                && t.bridges@[n].bridge_mac@ == bridges[k].bridge_mac && t.bridges@[n].port_count
                == bridges[k].ports.dom().len(),
{
    let keys = choose|keys: Seq<u64>| #[trigger]
        enumerates(keys, bridges.dom(), t.bridges@.len()) && forall|i: int|
            0 <= i < keys.len() ==> (#[trigger] t.bridges@[i]).sums_up(bridges[keys[i]]);
    keys.unique_seq_to_set();
    if bridges.contains_key(key) {
        assert(keys.to_set().contains(key));
        let i = keys.index_of(key);
        assert(t.bridges@[i].sums_up(bridges[keys[i]]));
    }
    if 0 <= n < t.bridges@.len() {
        assert(t.bridges@[n].sums_up(bridges[keys[n]]));
        assert(keys.contains(keys[n]));
        assert(keys.to_set().contains(keys[n]));
        assert(bridges.contains_key(keys[n]));
    }
}

} // verus!
