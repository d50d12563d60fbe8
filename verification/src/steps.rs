//! What holds of every BPDU that the analyser takes note of.

use vstd::prelude::*;

use crate::analyzer;
use crate::analyzer::{
    AnalyzerModel, PortRecord, PortState,
    Tracker, ROOT_FLAP_THRESHOLD, ROOT_WINDOW_MS, TC_STORM_THRESHOLD, TC_WINDOW_MS,
};
use crate::bytes;
use crate::event;
use crate::event::{EventKind, EventModel};
use crate::net;
use crate::stp;
use crate::stp::{Bpdu, BpduFlags, BpduType, PortRole};
use crate::time;
use crate::time::{Interval, Timestamp};

verus! {

/// A BPDU raises no counter by more than one.
pub proof fn lemma_counts_grow_slowly(state: AnalyzerModel, b: Bpdu, ts: Timestamp, n: int)
    requires
        state.counts_within(n),
        0 <= n < usize::MAX,
    ensures
        state.step(b, ts).0.counts_within(n + 1),
{
}

/// Two bridges share a number only where both the address and the VLAN are the
/// same.
pub proof fn lemma_bridge_key_injective(a: Seq<u8>, v: u16, b: Seq<u8>, w: u16)
    requires
        a.len() == 6,
        b.len() == 6,
        analyzer::bridge_key(a, v) == analyzer::bridge_key(b, w),
    ensures
        a == b,
        v == w,
{
    let x = bytes::be32(a, 0) * 0x1_0000 + bytes::be16(a, 4);
    let y = bytes::be32(b, 0) * 0x1_0000 + bytes::be16(b, 4);
    assert(x < 0x1_0000_0000_0000 && y < 0x1_0000_0000_0000);
    assert(x == y);
    assert(bytes::be32(a, 0) == bytes::be32(b, 0) && bytes::be16(a, 4) == bytes::be16(b, 4));
    assert(bytes::be16(a, 0) == bytes::be16(b, 0) && bytes::be16(a, 2) == bytes::be16(b, 2));
    assert(a =~= b);
}

/// Two windows share a number only where both the VLAN and the second are the
/// same.
pub proof fn lemma_window_key_injective(v: u16, s: u32, w: u16, t: u32)
    requires
        analyzer::window_key(v, s) == analyzer::window_key(w, t),
    ensures
        v == w,
        s == t,
{
}

/// A topology change notification is reported and changes nothing.
pub proof fn lemma_notification_changes_nothing(state: AnalyzerModel, b: Bpdu, ts: Timestamp)
    requires
        b.bpdu_type == BpduType::TcnBpdu,
    ensures
        state.step(b, ts).0 == state,
        state.step(b, ts).1 == seq![
            EventModel::TcnReceived {
                ts,
                sender_mac: net::mac_text(b.sender_mac@),
                vlan_id: b.vlan_id,
            },
        ],
{
}

/// After any other BPDU its root is the root of its VLAN, and its sender and port
/// are known as it showed them.
pub proof fn lemma_bpdu_remembered(state: AnalyzerModel, b: Bpdu, ts: Timestamp)
    requires
        b.bpdu_type != BpduType::TcnBpdu,
    ensures
        ({
            let after = state.step(b, ts).0;
            let key = analyzer::bridge_key(b.sender_mac@, analyzer::vlan_of(b));
            &&& after.roots.contains_key(analyzer::vlan_of(b))
            &&& after.roots[analyzer::vlan_of(b)].text() == b.root_id.text()
            &&& after.bridges.contains_key(key)
            &&& after.bridges[key].last_bpdu_ts == ts
            &&& after.bridges[key].ports.contains_key(b.port_id)
            &&& after.bridges[key].ports[b.port_id] == (PortRecord {
                port_id: b.port_id,
                role: b.flags.port_role,
                fsm_state: PortState::of_flags(b.flags),
                last_ts: ts,
            })
        }),
{
}

/// No bridge, port, VLAN or report is ever forgotten, and a bridge keeps the
/// identifier and the address with which it was discovered.
pub proof fn lemma_nothing_forgotten(state: AnalyzerModel, b: Bpdu, ts: Timestamp)
    ensures
        ({
            let after = state.step(b, ts).0;
            &&& state.roots.dom().subset_of(after.roots.dom())
            &&& state.tc_windows.dom().subset_of(after.tc_windows.dom())
            &&& state.root_windows.dom().subset_of(after.root_windows.dom())
            &&& state.storms.subset_of(after.storms)
            &&& state.flaps.subset_of(after.flaps)
            &&& state.bridges.dom().subset_of(after.bridges.dom())
            &&& forall|key: u64| #[trigger]
                state.bridges.contains_key(key) ==> {
                    &&& after.bridges[key].bridge_id == state.bridges[key].bridge_id
                    &&& after.bridges[key].bridge_mac == state.bridges[key].bridge_mac
                    &&& state.bridges[key].ports.dom().subset_of(after.bridges[key].ports.dom())
                }
        }),
{
}

/// A BPDU of one VLAN leaves the roots and the counters of all others alone, and
/// all bridges but its sender.
pub proof fn lemma_others_untouched(
    state: AnalyzerModel,
    b: Bpdu,
    ts: Timestamp,
    vlan: u16,
    key: u64,
)
    requires
        vlan != analyzer::vlan_of(b),
        key != analyzer::bridge_key(b.sender_mac@, analyzer::vlan_of(b)),
    ensures
        ({
            let after = state.step(b, ts).0;
            &&& after.roots.contains_key(vlan) == state.roots.contains_key(vlan)
            &&& after.roots[vlan] == state.roots[vlan]
            &&& after.tc_windows.contains_key(vlan) == state.tc_windows.contains_key(vlan)
            &&& after.tc_windows[vlan] == state.tc_windows[vlan]
            &&& after.root_windows.contains_key(vlan) == state.root_windows.contains_key(vlan)
            &&& after.root_windows[vlan] == state.root_windows[vlan]
            &&& forall|sec: u32| #[trigger]
                after.storms.contains(analyzer::window_key(vlan, sec)) == state.storms.contains(
                    analyzer::window_key(vlan, sec),
                )
            &&& forall|sec: u32| #[trigger]
                after.flaps.contains(analyzer::window_key(vlan, sec)) == state.flaps.contains(
                    analyzer::window_key(vlan, sec),
                )
            &&& after.bridges.contains_key(key) == state.bridges.contains_key(key)
            &&& after.bridges[key] == state.bridges[key]
        }),
{
}

impl AnalyzerModel {
    /// The BPDU names another root than its VLAN has.
    pub open spec fn root_changes(self, b: Bpdu) -> bool {
        self.roots.contains_key(analyzer::vlan_of(b)) && self.roots[analyzer::vlan_of(b)].text() != b.root_id.text()
    }

    /// The counter of topology changes in the VLAN of a BPDU, once it is counted.
    pub open spec fn tc_counted(self, b: Bpdu, ts: Timestamp) -> Tracker {
        analyzer::counted(analyzer::tracker_at(self.tc_windows, analyzer::vlan_of(b), ts), ts, TC_WINDOW_MS as nat)
    }

    /// The counter of changes of root in the VLAN of a BPDU, once it is counted.
    pub open spec fn root_counted(self, b: Bpdu, ts: Timestamp) -> Tracker {
        analyzer::counted(analyzer::tracker_at(self.root_windows, analyzer::vlan_of(b), ts), ts, ROOT_WINDOW_MS as nat)
    }

    /// The number of the window in which a topology change is counted.
    pub open spec fn tc_window(self, b: Bpdu, ts: Timestamp) -> u64 {
        analyzer::window_key(analyzer::vlan_of(b), self.tc_counted(b, ts).window_start.sec)
    }

    /// The number of the window in which a change of root is counted.
    pub open spec fn root_window(self, b: Bpdu, ts: Timestamp) -> u64 {
        analyzer::window_key(analyzer::vlan_of(b), self.root_counted(b, ts).window_start.sec)
    }
}

/// What is told of the bridge.
proof fn lemma_told_of_bridge(state: AnalyzerModel, b: Bpdu, ts: Timestamp, kind: EventKind)
    ensures
        event::tells(state.meet_bridge(b, ts).1, kind) <==> kind == EventKind::BridgeDiscovered
            && !state.bridges.contains_key(analyzer::bridge_key(b.sender_mac@, analyzer::vlan_of(b))),
{
    let events = state.meet_bridge(b, ts).1;
    if events.len() > 0 {
        assert(events[0].kind() == EventKind::BridgeDiscovered);
    }
}

/// What is told of the root.
proof fn lemma_told_of_root(state: AnalyzerModel, b: Bpdu, ts: Timestamp, kind: EventKind)
    ensures
        event::tells(state.follow_root(b, ts).1, kind) <==> {
            ||| kind == EventKind::RootElected && !state.roots.contains_key(analyzer::vlan_of(b))
            ||| kind == EventKind::RootChanged && state.root_changes(b)
            ||| kind == EventKind::RootFlapping && state.root_changes(b) && state.root_counted(
                b,
                ts,
            ).count >= ROOT_FLAP_THRESHOLD && !state.flaps.contains(state.root_window(b, ts))
        },
{
    let events = state.follow_root(b, ts).1;
    if events.len() > 0 {
        assert(events[0].kind() == EventKind::RootElected || events[0].kind()
            == EventKind::RootChanged);
    }
    if events.len() > 1 {
        assert(events[1].kind() == EventKind::RootFlapping);
    }
}

/// What is told of topology changes.
proof fn lemma_told_of_change(state: AnalyzerModel, b: Bpdu, ts: Timestamp, kind: EventKind)
    ensures
        event::tells(state.count_change(b, ts).1, kind) <==> {
            ||| kind == EventKind::TopologyChange && b.flags.tc
            ||| kind == EventKind::TcStorm && b.flags.tc && state.tc_counted(b, ts).count
                >= TC_STORM_THRESHOLD && !state.storms.contains(state.tc_window(b, ts))
        },
{
    let events = state.count_change(b, ts).1;
    if events.len() > 0 {
        assert(events[0].kind() == EventKind::TopologyChange);
    }
    if events.len() > 1 {
        assert(events[1].kind() == EventKind::TcStorm);
    }
}

/// What is told of the port.
proof fn lemma_told_of_port(state: AnalyzerModel, b: Bpdu, ts: Timestamp, kind: EventKind)
    ensures
        event::tells(state.update_port(b, ts).1, kind) ==> kind == EventKind::PortRoleChange
            || kind == EventKind::PortStateChange,
{
}

/// What is told of the claim to a root.
proof fn lemma_told_of_claim(state: AnalyzerModel, b: Bpdu, ts: Timestamp, kind: EventKind)
    ensures
        event::tells(state.judge_claim(b, ts), kind) <==> kind == EventKind::InferiorBpdu
            && state.outranks_claim(b),
{
    let events = state.judge_claim(b, ts);
    if events.len() > 0 {
        assert(events[0].kind() == EventKind::InferiorBpdu);
    }
}

/// What is told of a BPDU, piece by piece; the first is that it came.
proof fn lemma_pieces(state: AnalyzerModel, b: Bpdu, ts: Timestamp) -> (first: Seq<EventModel>)
    requires
        b.bpdu_type != BpduType::TcnBpdu,
    ensures
        first.len() == 1,
        first[0].kind() == EventKind::BpduReceived,
        first[0].time() == ts,
        first[0].vlan_id() == b.vlan_id,
        ({
            let (met, discovered) = state.meet_bridge(b, ts);
            let (rooted, root_events) = met.follow_root(b, ts);
            let (changed, tc_events) = rooted.count_change(b, ts);
            let port_events = changed.update_port(b, ts).1;
            state.step(b, ts).1 == first + discovered + root_events + tc_events + port_events
                + state.judge_claim(b, ts)
        }),
{
    let events = state.step(b, ts).1;
    let first = events.take(1);
    assert(first =~= seq![events[0]]);
    first
}

/// What is told of a BPDU is told of it in one of these six places.
proof fn lemma_told_somewhere(state: AnalyzerModel, b: Bpdu, ts: Timestamp, kind: EventKind)
    requires
        b.bpdu_type != BpduType::TcnBpdu,
    ensures
        ({
            let (met, discovered) = state.meet_bridge(b, ts);
            let (rooted, root_events) = met.follow_root(b, ts);
            let (changed, tc_events) = rooted.count_change(b, ts);
            let port_events = changed.update_port(b, ts).1;
            event::tells(state.step(b, ts).1, kind) <==> {
                ||| kind == EventKind::BpduReceived
                ||| event::tells(discovered, kind)
                ||| event::tells(root_events, kind)
                ||| event::tells(tc_events, kind)
                ||| event::tells(port_events, kind)
                ||| event::tells(state.judge_claim(b, ts), kind)
            }
        }),
{
    let (met, discovered) = state.meet_bridge(b, ts);
    let (rooted, root_events) = met.follow_root(b, ts);
    let (changed, tc_events) = rooted.count_change(b, ts);
    let port_events = changed.update_port(b, ts).1;
    let first = lemma_pieces(state, b, ts);
    let told = first + discovered + root_events + tc_events + port_events;
    assert(first[0].kind() == EventKind::BpduReceived);
    event::lemma_tells_concat(first, discovered, kind);
    event::lemma_tells_concat(first + discovered, root_events, kind);
    event::lemma_tells_concat(first + discovered + root_events, tc_events, kind);
    event::lemma_tells_concat(first + discovered + root_events + tc_events, port_events, kind);
    event::lemma_tells_concat(told, state.judge_claim(b, ts), kind);
}

/// Each kind of event that is told of a BPDU, one at a time.
proof fn lemma_told(state: AnalyzerModel, b: Bpdu, ts: Timestamp, kind: EventKind)
    requires
        b.bpdu_type != BpduType::TcnBpdu,
    ensures
        kind == EventKind::BridgeDiscovered ==> (event::tells(state.step(b, ts).1, kind)
            <==> !state.bridges.contains_key(analyzer::bridge_key(b.sender_mac@, analyzer::vlan_of(b)))),
        kind == EventKind::RootElected ==> (event::tells(state.step(b, ts).1, kind)
            <==> !state.roots.contains_key(analyzer::vlan_of(b))),
        kind == EventKind::RootChanged ==> (event::tells(state.step(b, ts).1, kind)
            <==> state.root_changes(b)),
        kind == EventKind::RootFlapping ==> (event::tells(state.step(b, ts).1, kind)
            <==> state.root_changes(b) && state.root_counted(b, ts).count >= ROOT_FLAP_THRESHOLD
            && !state.flaps.contains(state.root_window(b, ts))),
        kind == EventKind::TopologyChange ==> (event::tells(state.step(b, ts).1, kind)
            <==> b.flags.tc),
        kind == EventKind::TcStorm ==> (event::tells(state.step(b, ts).1, kind) <==> b.flags.tc
            && state.tc_counted(b, ts).count >= TC_STORM_THRESHOLD && !state.storms.contains(
            state.tc_window(b, ts),
        )),
        kind == EventKind::InferiorBpdu ==> (event::tells(state.step(b, ts).1, kind)
            <==> state.outranks_claim(b)),
        kind == EventKind::TcnReceived ==> !event::tells(state.step(b, ts).1, kind),
{
    let met = state.meet_bridge(b, ts).0;
    let rooted = met.follow_root(b, ts).0;
    let changed = rooted.count_change(b, ts).0;
    lemma_told_somewhere(state, b, ts, kind);
    lemma_told_of_bridge(state, b, ts, kind);
    lemma_told_of_root(met, b, ts, kind);
    lemma_told_of_change(rooted, b, ts, kind);
    lemma_told_of_port(changed, b, ts, kind);
    lemma_told_of_claim(state, b, ts, kind);
    assert(met.roots == state.roots && met.root_windows == state.root_windows && met.flaps
        == state.flaps);
    assert(rooted.tc_windows == state.tc_windows && rooted.storms == state.storms);
}

/// What a BPDU that is no notification makes the analyser tell. The BPDU itself
/// comes first. A bridge is discovered with its first BPDU and a root elected with
/// the first of its VLAN; a storm or flapping is told with the change that reaches
/// the threshold, and once in a window. A BPDU is inferior where the root that it
/// claims is worse than the one that was known.
pub proof fn lemma_what_is_told(state: AnalyzerModel, b: Bpdu, ts: Timestamp)
    requires
        b.bpdu_type != BpduType::TcnBpdu,
    ensures
        ({
            let events = state.step(b, ts).1;
            &&& events.len() > 0
            &&& events[0].kind() == EventKind::BpduReceived
            &&& event::tells(events, EventKind::BridgeDiscovered) <==> !state.bridges.contains_key(
                analyzer::bridge_key(b.sender_mac@, analyzer::vlan_of(b)),
            )
            &&& event::tells(events, EventKind::RootElected) <==> !state.roots.contains_key(
                analyzer::vlan_of(b),
            )
            &&& event::tells(events, EventKind::RootChanged) <==> state.root_changes(b)
            &&& event::tells(events, EventKind::RootFlapping) <==> state.root_changes(b)
                && state.root_counted(b, ts).count >= ROOT_FLAP_THRESHOLD
                && !state.flaps.contains(state.root_window(b, ts))
            &&& event::tells(events, EventKind::TopologyChange) <==> b.flags.tc
            &&& event::tells(events, EventKind::TcStorm) <==> b.flags.tc && state.tc_counted(
                b,
                ts,
            ).count >= TC_STORM_THRESHOLD && !state.storms.contains(state.tc_window(b, ts))
            &&& !event::tells(events, EventKind::TcnReceived)
            &&& event::tells(events, EventKind::InferiorBpdu) <==> state.outranks_claim(b)
        }),
{
    let first = lemma_pieces(state, b, ts);
    assert(state.step(b, ts).1[0] == first[0]);
    lemma_told(state, b, ts, EventKind::BridgeDiscovered);
    lemma_told(state, b, ts, EventKind::RootElected);
    lemma_told(state, b, ts, EventKind::RootChanged);
    lemma_told(state, b, ts, EventKind::RootFlapping);
    lemma_told(state, b, ts, EventKind::TopologyChange);
    lemma_told(state, b, ts, EventKind::TcStorm);
    lemma_told(state, b, ts, EventKind::TcnReceived);
    lemma_told(state, b, ts, EventKind::InferiorBpdu);
}

/// What a BPDU that is no notification changes. The root of its VLAN is set where
/// there was none or another, and its changes are counted.
pub proof fn lemma_what_is_changed(state: AnalyzerModel, b: Bpdu, ts: Timestamp)
    requires
        b.bpdu_type != BpduType::TcnBpdu,
    ensures
        ({
            let after = state.step(b, ts).0;
            let vlan = analyzer::vlan_of(b);
            let key = analyzer::bridge_key(b.sender_mac@, vlan);
            &&& after.roots == (if state.roots.contains_key(vlan) && !state.root_changes(b) {
                state.roots
            } else {
                state.roots.insert(vlan, b.root_id)
            })
            &&& after.tc_windows == (if b.flags.tc {
                state.tc_windows.insert(vlan, state.tc_counted(b, ts))
            } else {
                state.tc_windows
            })
            &&& after.root_windows == (if state.root_changes(b) {
                state.root_windows.insert(vlan, state.root_counted(b, ts))
            } else {
                state.root_windows
            })
            &&& after.bridges.dom() == state.bridges.dom().insert(key)
        }),
{
    let vlan = analyzer::vlan_of(b);
    let key = analyzer::bridge_key(b.sender_mac@, vlan);
    assert(state.step(b, ts).0.bridges.dom() =~= state.bridges.dom().insert(key));
}

/// A storm is told once in its window, and so is flapping: the window was not
/// marked before, and it is from then on.
pub proof fn lemma_told_once(state: AnalyzerModel, b: Bpdu, ts: Timestamp)
    requires
        b.bpdu_type != BpduType::TcnBpdu,
    ensures
        ({
            let (after, events) = state.step(b, ts);
            &&& event::tells(events, EventKind::TcStorm) ==> {
                &&& !state.storms.contains(state.tc_window(b, ts))
                &&& after.storms == state.storms.insert(state.tc_window(b, ts))
            }
            &&& !event::tells(events, EventKind::TcStorm) ==> after.storms == state.storms
            &&& event::tells(events, EventKind::RootFlapping) ==> {
                &&& !state.flaps.contains(state.root_window(b, ts))
                &&& after.flaps == state.flaps.insert(state.root_window(b, ts))
            }
            &&& !event::tells(events, EventKind::RootFlapping) ==> after.flaps == state.flaps
        }),
{
    lemma_what_is_told(state, b, ts);
}

/// A BPDU that says the same as one before tells nothing but that it came, as long
/// as it has no topology change flag.
pub proof fn lemma_repetition_is_quiet(
    state: AnalyzerModel,
    b: Bpdu,
    ts: Timestamp,
    again: Timestamp,
)
    requires
        b.bpdu_type != BpduType::TcnBpdu,
        !b.flags.tc,
    ensures
        ({
            let events = state.step(b, ts).0.step(b, again).1;
            events.len() == 1 && events[0].kind() == EventKind::BpduReceived
        }),
{
}

/// Every event has this time and this VLAN.
pub open spec fn dated(events: Seq<EventModel>, ts: Timestamp, vlan_id: Option<u16>) -> bool {
    forall|i: int|
        0 <= i < events.len() ==> (#[trigger] events[i]).time() == ts && events[i].vlan_id()
            == vlan_id
}

/// Lists that follow each other share their time and VLAN with the whole.
proof fn lemma_dated_concat(
    a: Seq<EventModel>,
    b: Seq<EventModel>,
    ts: Timestamp,
    vlan_id: Option<u16>,
)
    requires
        dated(a, ts, vlan_id),
        dated(b, ts, vlan_id),
    ensures
        dated(a + b, ts, vlan_id),
{
    let s = a + b;
    assert forall|i: int| 0 <= i < s.len() implies (#[trigger] s[i]).time() == ts
        && s[i].vlan_id() == vlan_id by {
        if i < a.len() {
            assert(s[i] == a[i]);
        } else {
            assert(s[i] == b[i - a.len()]);
        }
    }
}

/// What is told of the port has the time and the VLAN of the BPDU.
proof fn lemma_port_events_dated(state: AnalyzerModel, b: Bpdu, ts: Timestamp)
    ensures
        dated(state.update_port(b, ts).1, ts, b.vlan_id),
{
}

/// What is told of topology changes has the time and the VLAN of the BPDU.
proof fn lemma_change_events_dated(state: AnalyzerModel, b: Bpdu, ts: Timestamp)
    ensures
        dated(state.count_change(b, ts).1, ts, b.vlan_id),
{
}

/// What is told of the root has the time and the VLAN of the BPDU.
proof fn lemma_root_events_dated(state: AnalyzerModel, b: Bpdu, ts: Timestamp)
    ensures
        dated(state.follow_root(b, ts).1, ts, b.vlan_id),
{
}

/// Every event has the time and the VLAN of the BPDU that it comes from.
pub proof fn lemma_events_dated(state: AnalyzerModel, b: Bpdu, ts: Timestamp)
    ensures
        dated(state.step(b, ts).1, ts, b.vlan_id),
{
    let (met, discovered) = state.meet_bridge(b, ts);
    let (rooted, root_events) = met.follow_root(b, ts);
    let (changed, tc_events) = rooted.count_change(b, ts);
    let port_events = changed.update_port(b, ts).1;
    if b.bpdu_type != BpduType::TcnBpdu {
        let first = lemma_pieces(state, b, ts);
        let claim = state.judge_claim(b, ts);
        lemma_root_events_dated(met, b, ts);
        lemma_change_events_dated(rooted, b, ts);
        lemma_port_events_dated(changed, b, ts);
        lemma_dated_concat(first, discovered, ts, b.vlan_id);
        lemma_dated_concat(first + discovered, root_events, ts, b.vlan_id);
        lemma_dated_concat(first + discovered + root_events, tc_events, ts, b.vlan_id);
        lemma_dated_concat(
            first + discovered + root_events + tc_events,
            port_events,
            ts,
            b.vlan_id,
        );
        lemma_dated_concat(
            first + discovered + root_events + tc_events + port_events,
            claim,
            ts,
            b.vlan_id,
        );
    }
}

/// The place of a kind of event among what is told of one BPDU.
pub open spec fn place(kind: EventKind) -> int {
    match kind {
        EventKind::BpduReceived => 0,
        EventKind::BridgeDiscovered => 1,
        EventKind::RootElected => 2,
        EventKind::RootChanged => 3,
        EventKind::RootFlapping => 4,
        EventKind::TopologyChange => 5,
        EventKind::TcStorm => 6,
        EventKind::PortRoleChange => 7,
        EventKind::PortStateChange => 8,
        EventKind::InferiorBpdu => 9,
        EventKind::TcnReceived => 10,
    }
}

/// The events stand in the order of their places, from `low` up to `high`, and no
/// place is taken twice.
pub open spec fn ordered(events: Seq<EventModel>, low: int, high: int) -> bool {
    &&& forall|i: int|
        0 <= i < events.len() ==> low <= place((#[trigger] events[i]).kind()) < high
    &&& forall|i: int, j: int|
        0 <= i < j < events.len() ==> place((#[trigger] events[i]).kind()) < place(
            (#[trigger] events[j]).kind(),
        )
}

/// Ordered lists of which one ends where the other begins are ordered as a whole.
proof fn lemma_ordered_concat(
    a: Seq<EventModel>,
    b: Seq<EventModel>,
    low: int,
    middle: int,
    high: int,
)
    requires
        low <= middle <= high,
        ordered(a, low, middle),
        ordered(b, middle, high),
    ensures
        ordered(a + b, low, high),
{
    let s = a + b;
    assert(forall|i: int| 0 <= i < a.len() ==> s[i] == a[i]);
    assert(forall|i: int| a.len() <= i < s.len() ==> s[i] == b[i - a.len()]);
}

/// What is told of the root is in order.
proof fn lemma_root_events_ordered(state: AnalyzerModel, b: Bpdu, ts: Timestamp)
    ensures
        ordered(state.follow_root(b, ts).1, 2, 5),
{
}

/// What is told of topology changes is in order.
proof fn lemma_change_events_ordered(state: AnalyzerModel, b: Bpdu, ts: Timestamp)
    ensures
        ordered(state.count_change(b, ts).1, 5, 7),
{
}

/// What is told of the port is in order.
proof fn lemma_port_events_ordered(state: AnalyzerModel, b: Bpdu, ts: Timestamp)
    ensures
        ordered(state.update_port(b, ts).1, 7, 9),
{
}

/// What is told of the claim to a root is in order.
proof fn lemma_claim_ordered(state: AnalyzerModel, b: Bpdu, ts: Timestamp)
    ensures
        ordered(state.judge_claim(b, ts), 9, 10),
{
}

/// A list in order stays in order where more room is left at its end.
proof fn lemma_widen(events: Seq<EventModel>, low: int, high: int, higher: int)
    requires
        ordered(events, low, high),
        high <= higher,
    ensures
        ordered(events, low, higher),
{
}

/// What is told of one BPDU is told in a fixed order, and no kind of event is told
/// of it twice.
pub proof fn lemma_events_ordered(state: AnalyzerModel, b: Bpdu, ts: Timestamp)
    ensures
        ordered(state.step(b, ts).1, 0, 11),
{
    let (met, discovered) = state.meet_bridge(b, ts);
    let (rooted, root_events) = met.follow_root(b, ts);
    let (changed, tc_events) = rooted.count_change(b, ts);
    let port_events = changed.update_port(b, ts).1;
    if b.bpdu_type != BpduType::TcnBpdu {
        let first = lemma_pieces(state, b, ts);
        let claim = state.judge_claim(b, ts);
        assert(ordered(first, 0, 1));
        assert(ordered(discovered, 1, 2));
        lemma_root_events_ordered(met, b, ts);
        lemma_change_events_ordered(rooted, b, ts);
        lemma_port_events_ordered(changed, b, ts);
        lemma_ordered_concat(first, discovered, 0, 1, 2);
        lemma_ordered_concat(first + discovered, root_events, 0, 2, 5);
        lemma_ordered_concat(first + discovered + root_events, tc_events, 0, 5, 7);
        lemma_ordered_concat(
            first + discovered + root_events + tc_events,
            port_events,
            0,
            7,
            9,
        );
        lemma_claim_ordered(state, b, ts);
        lemma_ordered_concat(
            first + discovered + root_events + tc_events + port_events,
            claim,
            0,
            9,
            10,
        );
        lemma_widen(state.step(b, ts).1, 0, 10, 11);
    }
}

/// Whatever the list tells of the kind of `e` is `e` itself.
pub open spec fn tells_only(events: Seq<EventModel>, e: EventModel) -> bool {
    forall|i: int| 0 <= i < events.len() && (#[trigger] events[i]).kind() == e.kind() ==> events[i] == e
}

/// Lists that follow each other tell only what both of them do.
proof fn lemma_only_concat(a: Seq<EventModel>, b: Seq<EventModel>, e: EventModel)
    requires
        tells_only(a, e),
        tells_only(b, e),
    ensures
        tells_only(a + b, e),
{
    let s = a + b;
    assert forall|i: int| 0 <= i < s.len() && (#[trigger] s[i]).kind() == e.kind() implies s[i] == e by {
        if i < a.len() {
            assert(s[i] == a[i]);
        } else {
            assert(s[i] == b[i - a.len()]);
        }
    }
}

/// A list of kinds in a range of places tells nothing of a kind outside of it.
proof fn lemma_only_elsewhere(events: Seq<EventModel>, low: int, high: int, e: EventModel)
    requires
        ordered(events, low, high),
        place(e.kind()) < low || high <= place(e.kind()),
    ensures
        tells_only(events, e),
{
}

/// Where the piece that holds its kind tells only `e`, so does the whole.
proof fn lemma_only(state: AnalyzerModel, b: Bpdu, ts: Timestamp, e: EventModel)
    requires
        b.bpdu_type != BpduType::TcnBpdu,
        0 < place(e.kind()) < 10,
        ({
            let (met, discovered) = state.meet_bridge(b, ts);
            let (rooted, root_events) = met.follow_root(b, ts);
            let (changed, tc_events) = rooted.count_change(b, ts);
            let at = place(e.kind());
            &&& at == 1 ==> tells_only(discovered, e)
            &&& 2 <= at < 5 ==> tells_only(root_events, e)
            &&& 5 <= at < 7 ==> tells_only(tc_events, e)
            &&& 7 <= at < 9 ==> tells_only(changed.update_port(b, ts).1, e)
            &&& at == 9 ==> tells_only(state.judge_claim(b, ts), e)
        }),
    ensures
        tells_only(state.step(b, ts).1, e),
{
    let (met, discovered) = state.meet_bridge(b, ts);
    let (rooted, root_events) = met.follow_root(b, ts);
    let (changed, tc_events) = rooted.count_change(b, ts);
    let port_events = changed.update_port(b, ts).1;
    let claim = state.judge_claim(b, ts);
    let first = lemma_pieces(state, b, ts);
    let at = place(e.kind());
    assert(ordered(first, 0, 1));
    assert(ordered(discovered, 1, 2));
    lemma_root_events_ordered(met, b, ts);
    lemma_change_events_ordered(rooted, b, ts);
    lemma_port_events_ordered(changed, b, ts);
    lemma_claim_ordered(state, b, ts);
    lemma_only_elsewhere(first, 0, 1, e);
    if at != 1 {
        lemma_only_elsewhere(discovered, 1, 2, e);
    }
    if at < 2 || 5 <= at {
        lemma_only_elsewhere(root_events, 2, 5, e);
    }
    if at < 5 || 7 <= at {
        lemma_only_elsewhere(tc_events, 5, 7, e);
    }
    if at < 7 || 9 <= at {
        lemma_only_elsewhere(port_events, 7, 9, e);
    }
    if at < 9 {
        lemma_only_elsewhere(claim, 9, 10, e);
    }
    lemma_only_concat(first, discovered, e);
    lemma_only_concat(first + discovered, root_events, e);
    lemma_only_concat(first + discovered + root_events, tc_events, e);
    lemma_only_concat(first + discovered + root_events + tc_events, port_events, e);
    lemma_only_concat(
        first + discovered + root_events + tc_events + port_events,
        claim,
        e,
    );
}

/// The number under which the VLAN of a BPDU is kept: its own, or 0 without one.
pub open spec fn number_of_vlan(vlan_id: Option<u16>) -> u16 {
    match vlan_id {
        Some(v) => v,
        None => 0,
    }
}

/// A BPDU is on the time line first and once, with its own fields: the texts of its
/// sender, root and bridge, its cost and port, and whether it has the topology change
/// flag, which is where it tells a topology change.
pub proof fn lemma_received(state: AnalyzerModel, b: Bpdu, ts: Timestamp)
    requires
        b.bpdu_type != BpduType::TcnBpdu,
    ensures
        ({
            let events = state.step(b, ts).1;
            &&& events.len() > 0
            &&& events[0] == (EventModel::BpduReceived {
                ts,
                sender_mac: net::mac_text(b.sender_mac@),
                root_id: b.root_id.text(),
                root_cost: b.root_path_cost,
                bridge_id: b.bridge_id.text(),
                port_id: b.port_id,
                flags_tc: b.flags.tc,
                is_rstp: b.is_rstp,
                vlan_id: b.vlan_id,
            })
            &&& forall|i: int| 0 < i < events.len() ==> !((#[trigger] events[i]) is BpduReceived)
            &&& events[0]->flags_tc <==> event::tells(events, EventKind::TopologyChange)
        }),
{
    lemma_what_is_told(state, b, ts);
    lemma_events_ordered(state, b, ts);
    let events = state.step(b, ts).1;
    assert forall|i: int| 0 < i < events.len() implies !((#[trigger] events[i]) is BpduReceived) by {
        assert(place(events[0].kind()) < place(events[i].kind()));
    }
}

/// What the time line shows of a BPDU stands in its bytes: the topology change flag is
/// the lowest bit of the flags, and cost and port are read most significant byte first.
pub proof fn lemma_received_bytes(
    state: AnalyzerModel,
    data: Seq<u8>,
    sender_mac: [u8; 6],
    vlan_id: Option<u16>,
    ts: Timestamp,
)
    requires
        stp::bpdu_of(data, sender_mac, vlan_id) is Some,
        data[3] != 0x80,
    ensures
        ({
            let b = stp::bpdu_of(data, sender_mac, vlan_id)->0;
            let events = state.step(b, ts).1;
            &&& events.len() > 0
            &&& events[0] is BpduReceived
            &&& events[0]->BpduReceived_sender_mac == net::mac_text(sender_mac@)
            &&& events[0]->root_cost == ((data[13] * 256 + data[14]) * 256 + data[15]) * 256 + data[16]
            &&& events[0]->BpduReceived_port_id == data[25] * 256 + data[26]
            &&& events[0]->flags_tc <==> data[4] % 2 == 1
            &&& events[0]->is_rstp <==> data[3] == 2
            &&& events[0]->BpduReceived_vlan_id == vlan_id
        }),
{
    stp::lemma_fields_in_bytes(data, sender_mac, vlan_id);
    lemma_received(state, stp::bpdu_of(data, sender_mac, vlan_id)->0, ts);
}

/// The bridge that is told of.
proof fn lemma_only_bridge(state: AnalyzerModel, b: Bpdu, ts: Timestamp)
    ensures
        tells_only(
            state.meet_bridge(b, ts).1,
            EventModel::BridgeDiscovered {
                ts,
                bridge_id: b.bridge_id.text(),
                bridge_mac: net::mac_text(b.sender_mac@),
                is_root: b.root_id.priority == b.bridge_id.priority && b.root_id.mac@
                    == b.bridge_id.mac@,
                vlan_id: b.vlan_id,
            },
        ),
{
}

/// What is remembered of a bridge after its first BPDU.
proof fn lemma_new_bridge(state: AnalyzerModel, b: Bpdu, ts: Timestamp)
    requires
        b.bpdu_type != BpduType::TcnBpdu,
        !state.bridges.contains_key(
            analyzer::bridge_key(b.sender_mac@, number_of_vlan(b.vlan_id)),
        ),
    ensures
        ({
            let after = state.step(b, ts).0;
            let key = analyzer::bridge_key(b.sender_mac@, number_of_vlan(b.vlan_id));
            &&& after.bridges.contains_key(key)
            &&& after.bridges[key].bridge_id == b.bridge_id.text()
            &&& after.bridges[key].bridge_mac == net::mac_text(b.sender_mac@)
            &&& after.bridges[key].ports.dom() == Set::<u16>::empty().insert(b.port_id)
        }),
{
    let after = state.step(b, ts).0;
    let key = analyzer::bridge_key(b.sender_mac@, number_of_vlan(b.vlan_id));
    assert(after.bridges[key].ports.dom() =~= Set::<u16>::empty().insert(b.port_id));
}

/// A bridge is discovered with the identifier of its BPDU and the address of its
/// sender, as the root where the BPDU names the bridge itself as the root.
pub proof fn lemma_discovered(state: AnalyzerModel, b: Bpdu, ts: Timestamp)
    requires
        b.bpdu_type != BpduType::TcnBpdu,
    ensures
        ({
            let (after, events) = state.step(b, ts);
            let key = analyzer::bridge_key(b.sender_mac@, number_of_vlan(b.vlan_id));
            let same = b.root_id.priority == b.bridge_id.priority && b.root_id.mac@ == b.bridge_id.mac@;
            &&& event::tells(events, EventKind::BridgeDiscovered) <==> !state.bridges.contains_key(key)
            &&& forall|i: int|
                0 <= i < events.len() && (#[trigger] events[i]) is BridgeDiscovered ==> events[i] == (
                EventModel::BridgeDiscovered {
                    ts,
                    bridge_id: b.bridge_id.text(),
                    bridge_mac: net::mac_text(b.sender_mac@),
                    is_root: same,
                    vlan_id: b.vlan_id,
                })
            &&& !state.bridges.contains_key(key) ==> {
                &&& after.bridges.contains_key(key)
                &&& after.bridges[key].bridge_id == b.bridge_id.text()
                &&& after.bridges[key].bridge_mac == net::mac_text(b.sender_mac@)
                &&& after.bridges[key].ports.dom() == Set::<u16>::empty().insert(b.port_id)
            }
        }),
{
    let events = state.step(b, ts).1;
    let key = analyzer::bridge_key(b.sender_mac@, number_of_vlan(b.vlan_id));
    let e = EventModel::BridgeDiscovered {
        ts,
        bridge_id: b.bridge_id.text(),
        bridge_mac: net::mac_text(b.sender_mac@),
        is_root: b.root_id.priority == b.bridge_id.priority && b.root_id.mac@ == b.bridge_id.mac@,
        vlan_id: b.vlan_id,
    };
    lemma_what_is_told(state, b, ts);
    lemma_only_bridge(state, b, ts);
    lemma_only(state, b, ts, e);
    assert forall|i: int| 0 <= i < events.len() && (#[trigger] events[i]) is BridgeDiscovered
        implies events[i] == e by {
        assert(events[i].kind() == e.kind());
    }
    if !state.bridges.contains_key(key) {
        lemma_new_bridge(state, b, ts);
    }
}

/// The election and the change of root that are told of.
proof fn lemma_only_root(state: AnalyzerModel, b: Bpdu, ts: Timestamp)
    ensures
        tells_only(
            state.follow_root(b, ts).1,
            EventModel::RootElected {
                ts,
                root_id: b.root_id.text(),
                root_mac: net::mac_text(b.root_id.mac@),
                root_priority: (b.root_id.priority / 4096 * 4096) as u16,
                vlan_id: b.vlan_id,
            },
        ),
        tells_only(
            state.follow_root(b, ts).1,
            EventModel::RootChanged {
                ts,
                old_root: state.roots[number_of_vlan(b.vlan_id)].text(),
                new_root: b.root_id.text(),
                new_root_mac: net::mac_text(b.root_id.mac@),
                vlan_id: b.vlan_id,
            },
        ),
{
}

/// The claim that is told of.
proof fn lemma_only_claim(state: AnalyzerModel, b: Bpdu, ts: Timestamp)
    ensures
        tells_only(
            state.judge_claim(b, ts),
            EventModel::InferiorBpdu {
                ts,
                sender_mac: net::mac_text(b.sender_mac@),
                claimed_root: b.root_id.text(),
                actual_root: state.roots[number_of_vlan(b.vlan_id)].text(),
                vlan_id: b.vlan_id,
            },
        ),
{
}

/// The bridges are met before the root is followed, and leave the roots alone.
proof fn lemma_meeting_keeps(state: AnalyzerModel, b: Bpdu, ts: Timestamp)
    ensures
        ({
            let met = state.meet_bridge(b, ts).0;
            &&& met.roots == state.roots
            &&& met.root_windows == state.root_windows
            &&& met.tc_windows == state.tc_windows
            &&& met.storms == state.storms
            &&& met.flaps == state.flaps
        }),
{
}

/// The first root of a VLAN is elected with the identifier, the address and the
/// priority that its BPDU names; the priority is a multiple of 4096.
pub proof fn lemma_elected(state: AnalyzerModel, b: Bpdu, ts: Timestamp)
    requires
        b.bpdu_type != BpduType::TcnBpdu,
    ensures
        ({
            let events = state.step(b, ts).1;
            &&& event::tells(events, EventKind::RootElected) <==> !state.roots.contains_key(
                number_of_vlan(b.vlan_id),
            )
            &&& forall|i: int|
                0 <= i < events.len() && (#[trigger] events[i]) is RootElected ==> events[i] == (
                EventModel::RootElected {
                    ts,
                    root_id: b.root_id.text(),
                    root_mac: net::mac_text(b.root_id.mac@),
                    root_priority: (b.root_id.priority / 4096 * 4096) as u16,
                    vlan_id: b.vlan_id,
                })
        }),
{
    let events = state.step(b, ts).1;
    let e = EventModel::RootElected {
        ts,
        root_id: b.root_id.text(),
        root_mac: net::mac_text(b.root_id.mac@),
        root_priority: (b.root_id.priority / 4096 * 4096) as u16,
        vlan_id: b.vlan_id,
    };
    lemma_what_is_told(state, b, ts);
    lemma_only_root(state.meet_bridge(b, ts).0, b, ts);
    lemma_only(state, b, ts, e);
    assert forall|i: int| 0 <= i < events.len() && (#[trigger] events[i]) is RootElected implies
        events[i] == e by {
        assert(events[i].kind() == e.kind());
    }
}

/// The root of a VLAN changes where a BPDU names another priority or address than the
/// VLAN has; the change goes from the one to the other.
pub proof fn lemma_root_changed(state: AnalyzerModel, b: Bpdu, ts: Timestamp)
    requires
        b.bpdu_type != BpduType::TcnBpdu,
    ensures
        ({
            let events = state.step(b, ts).1;
            let vlan = number_of_vlan(b.vlan_id);
            let known = state.roots[vlan];
            &&& event::tells(events, EventKind::RootChanged) <==> state.roots.contains_key(vlan) && (
            known.priority / 4096 != b.root_id.priority / 4096 || known.mac@ != b.root_id.mac@)
            &&& forall|i: int|
                0 <= i < events.len() && (#[trigger] events[i]) is RootChanged ==> events[i] == (
                EventModel::RootChanged {
                    ts,
                    old_root: known.text(),
                    new_root: b.root_id.text(),
                    new_root_mac: net::mac_text(b.root_id.mac@),
                    vlan_id: b.vlan_id,
                })
        }),
{
    let events = state.step(b, ts).1;
    let known = state.roots[number_of_vlan(b.vlan_id)];
    let e = EventModel::RootChanged {
        ts,
        old_root: known.text(),
        new_root: b.root_id.text(),
        new_root_mac: net::mac_text(b.root_id.mac@),
        vlan_id: b.vlan_id,
    };
    lemma_what_is_told(state, b, ts);
    stp::lemma_text_identifies(known, b.root_id);
    lemma_meeting_keeps(state, b, ts);
    lemma_only_root(state.meet_bridge(b, ts).0, b, ts);
    lemma_only(state, b, ts, e);
    assert forall|i: int| 0 <= i < events.len() && (#[trigger] events[i]) is RootChanged implies
        events[i] == e by {
        assert(events[i].kind() == e.kind());
    }
}

/// A BPDU is inferior where it names another root than its VLAN has, and a worse one:
/// of higher priority value, or of the same and a later address. Both are told.
pub proof fn lemma_inferior(state: AnalyzerModel, b: Bpdu, ts: Timestamp)
    requires
        b.bpdu_type != BpduType::TcnBpdu,
    ensures
        ({
            let events = state.step(b, ts).1;
            let vlan = number_of_vlan(b.vlan_id);
            let known = state.roots[vlan];
            &&& event::tells(events, EventKind::InferiorBpdu) <==> {
                &&& state.roots.contains_key(vlan)
                &&& known.priority / 4096 != b.root_id.priority / 4096 || known.mac@ != b.root_id.mac@
                &&& known.priority < b.root_id.priority || (known.priority == b.root_id.priority
                    && stp::mac_before(known.mac@, b.root_id.mac@))
            }
            &&& forall|i: int|
                0 <= i < events.len() && (#[trigger] events[i]) is InferiorBpdu ==> events[i] == (
                EventModel::InferiorBpdu {
                    ts,
                    sender_mac: net::mac_text(b.sender_mac@),
                    claimed_root: b.root_id.text(),
                    actual_root: known.text(),
                    vlan_id: b.vlan_id,
                })
        }),
{
    let events = state.step(b, ts).1;
    let known = state.roots[number_of_vlan(b.vlan_id)];
    let e = EventModel::InferiorBpdu {
        ts,
        sender_mac: net::mac_text(b.sender_mac@),
        claimed_root: b.root_id.text(),
        actual_root: known.text(),
        vlan_id: b.vlan_id,
    };
    lemma_what_is_told(state, b, ts);
    stp::lemma_text_identifies(known, b.root_id);
    stp::lemma_election_order(known, b.root_id);
    lemma_only_claim(state, b, ts);
    lemma_only(state, b, ts, e);
    assert forall|i: int| 0 <= i < events.len() && (#[trigger] events[i]) is InferiorBpdu implies
        events[i] == e by {
        assert(events[i].kind() == e.kind());
    }
}

/// The window in which something is counted at `ts`: the one of the VLAN as long as it
/// lasts, and else a new one.
pub open spec fn counting(windows: Map<u16, Tracker>, vlan: u16, ts: Timestamp, limit_ms: int) -> (
    Timestamp,
    int,
) {
    if windows.contains_key(vlan) && ts.ms_since(windows[vlan].window_start) <= limit_ms * time::one() {
        (windows[vlan].window_start, windows[vlan].count + 1)
    } else {
        (ts, 1)
    }
}

/// A counter goes on in its window, and begins anew with 1 after it.
proof fn lemma_counting(windows: Map<u16, Tracker>, vlan: u16, ts: Timestamp, limit_ms: nat)
    requires
        windows.contains_key(vlan) ==> windows[vlan].count < usize::MAX,
    ensures
        ({
            let (start, count) = counting(windows, vlan, ts, limit_ms as int);
            analyzer::counted(analyzer::tracker_at(windows, vlan, ts), ts, limit_ms) == (Tracker {
                window_start: start,
                count: count as usize,
            }) && 1 <= count <= usize::MAX
        }),
{
    time::lemma_ms_since_mirrored(ts, ts);
    assert(limit_ms * time::one() >= 0) by (nonlinear_arith)
        requires
            limit_ms >= 0,
            time::one() >= 0,
    ;
}

/// The topology change and the storm that are told of.
proof fn lemma_only_change(state: AnalyzerModel, b: Bpdu, ts: Timestamp)
    ensures
        tells_only(
            state.count_change(b, ts).1,
            EventModel::TopologyChange {
                ts,
                sender_mac: net::mac_text(b.sender_mac@),
                bridge_id: b.bridge_id.text(),
                vlan_id: b.vlan_id,
                tc_count: state.tc_counted(b, ts).count,
            },
        ),
        tells_only(
            state.count_change(b, ts).1,
            EventModel::TcStorm {
                ts,
                tc_count: state.tc_counted(b, ts).count,
                window_ms: Interval {
                    start: analyzer::tracker_at(
                        state.tc_windows,
                        number_of_vlan(b.vlan_id),
                        ts,
                    ).window_start,
                    end: ts,
                },
                vlan_id: b.vlan_id,
            },
        ),
{
}

/// The flapping that is told of.
proof fn lemma_only_flapping(state: AnalyzerModel, b: Bpdu, ts: Timestamp)
    ensures
        tells_only(
            state.follow_root(b, ts).1,
            EventModel::RootFlapping {
                ts,
                change_count: state.root_counted(b, ts).count,
                window_ms: Interval {
                    start: analyzer::tracker_at(
                        state.root_windows,
                        number_of_vlan(b.vlan_id),
                        ts,
                    ).window_start,
                    end: ts,
                },
                vlan_id: b.vlan_id,
            },
        ),
{
}

/// The root is followed before topology changes are counted, and leaves them alone.
proof fn lemma_following_keeps(state: AnalyzerModel, b: Bpdu, ts: Timestamp)
    ensures
        ({
            let rooted = state.follow_root(b, ts).0;
            &&& rooted.tc_windows == state.tc_windows
            &&& rooted.storms == state.storms
            &&& rooted.bridges == state.bridges
        }),
{
}

/// A BPDU with the topology change flag tells a topology change, with its number in a
/// window of ten seconds that the first change opens. A storm is told from the tenth
/// on, once in a window, with that number and the window so far.
pub proof fn lemma_topology_change(state: AnalyzerModel, b: Bpdu, ts: Timestamp)
    requires
        b.bpdu_type != BpduType::TcnBpdu,
        state.counts_within(usize::MAX - 1),
    ensures
        ({
            let (after, events) = state.step(b, ts);
            let vlan = number_of_vlan(b.vlan_id);
            let (start, count) = counting(state.tc_windows, vlan, ts, 10_000);
            let key = analyzer::window_key(vlan, start.sec);
            let storm = b.flags.tc && count >= 10 && !state.storms.contains(key);
            &&& event::tells(events, EventKind::TopologyChange) <==> b.flags.tc
            &&& event::tells(events, EventKind::TcStorm) <==> storm
            &&& forall|i: int|
                0 <= i < events.len() && (#[trigger] events[i]) is TopologyChange ==> events[i] == (
                EventModel::TopologyChange {
                    ts,
                    sender_mac: net::mac_text(b.sender_mac@),
                    bridge_id: b.bridge_id.text(),
                    vlan_id: b.vlan_id,
                    tc_count: count as usize,
                })
            &&& forall|i: int|
                0 <= i < events.len() && (#[trigger] events[i]) is TcStorm ==> events[i] == (
                EventModel::TcStorm {
                    ts,
                    tc_count: count as usize,
                    window_ms: Interval { start, end: ts },
                    vlan_id: b.vlan_id,
                })
            &&& after.tc_windows == (if b.flags.tc {
                state.tc_windows.insert(
                    vlan,
                    Tracker { window_start: start, count: count as usize },
                )
            } else {
                state.tc_windows
            })
            &&& after.storms == (if storm {
                state.storms.insert(key)
            } else {
                state.storms
            })
        }),
{
    let (after, events) = state.step(b, ts);
    let vlan = number_of_vlan(b.vlan_id);
    let (start, count) = counting(state.tc_windows, vlan, ts, 10_000);
    let met = state.meet_bridge(b, ts).0;
    let rooted = met.follow_root(b, ts).0;
    lemma_counting(state.tc_windows, vlan, ts, 10_000);
    lemma_what_is_told(state, b, ts);
    lemma_what_is_changed(state, b, ts);
    lemma_told_once(state, b, ts);
    lemma_meeting_keeps(state, b, ts);
    lemma_following_keeps(met, b, ts);
    lemma_only_change(rooted, b, ts);
    let change = EventModel::TopologyChange {
        ts,
        sender_mac: net::mac_text(b.sender_mac@),
        bridge_id: b.bridge_id.text(),
        vlan_id: b.vlan_id,
        tc_count: count as usize,
    };
    let told = EventModel::TcStorm {
        ts,
        tc_count: count as usize,
        window_ms: Interval {
            start: analyzer::tracker_at(state.tc_windows, vlan, ts).window_start,
            end: ts,
        },
        vlan_id: b.vlan_id,
    };
    lemma_only(state, b, ts, change);
    lemma_only(state, b, ts, told);
    assert forall|i: int| 0 <= i < events.len() && (#[trigger] events[i]) is TopologyChange implies
        events[i] == change by {
        assert(events[i].kind() == change.kind());
    }
    assert forall|i: int| 0 <= i < events.len() && (#[trigger] events[i]) is TcStorm implies events[i]
        == (EventModel::TcStorm {
        ts,
        tc_count: count as usize,
        window_ms: Interval { start, end: ts },
        vlan_id: b.vlan_id,
    }) by {
        assert(events[i].kind() == told.kind());
        assert(event::tells(events, EventKind::TcStorm));
    }
}

/// A change of root is counted in a window of thirty seconds that the first change
/// opens. Flapping is told from the third on, once in a window, with that number and
/// the window so far.
pub proof fn lemma_flapping(state: AnalyzerModel, b: Bpdu, ts: Timestamp)
    requires
        b.bpdu_type != BpduType::TcnBpdu,
        state.counts_within(usize::MAX - 1),
    ensures
        ({
            let (after, events) = state.step(b, ts);
            let vlan = number_of_vlan(b.vlan_id);
            let (start, count) = counting(state.root_windows, vlan, ts, 30_000);
            let key = analyzer::window_key(vlan, start.sec);
            let changed = event::tells(events, EventKind::RootChanged);
            let flapping = changed && count >= 3 && !state.flaps.contains(key);
            &&& event::tells(events, EventKind::RootFlapping) <==> flapping
            &&& forall|i: int|
                0 <= i < events.len() && (#[trigger] events[i]) is RootFlapping ==> events[i] == (
                EventModel::RootFlapping {
                    ts,
                    change_count: count as usize,
                    window_ms: Interval { start, end: ts },
                    vlan_id: b.vlan_id,
                })
            &&& after.root_windows == (if changed {
                state.root_windows.insert(
                    vlan,
                    Tracker { window_start: start, count: count as usize },
                )
            } else {
                state.root_windows
            })
            &&& after.flaps == (if flapping {
                state.flaps.insert(key)
            } else {
                state.flaps
            })
        }),
{
    let (after, events) = state.step(b, ts);
    let vlan = number_of_vlan(b.vlan_id);
    let (start, count) = counting(state.root_windows, vlan, ts, 30_000);
    let met = state.meet_bridge(b, ts).0;
    lemma_counting(state.root_windows, vlan, ts, 30_000);
    lemma_what_is_told(state, b, ts);
    lemma_what_is_changed(state, b, ts);
    lemma_told_once(state, b, ts);
    lemma_meeting_keeps(state, b, ts);
    lemma_only_flapping(met, b, ts);
    let told = EventModel::RootFlapping {
        ts,
        change_count: count as usize,
        window_ms: Interval {
            start: analyzer::tracker_at(state.root_windows, vlan, ts).window_start,
            end: ts,
        },
        vlan_id: b.vlan_id,
    };
    lemma_only(state, b, ts, told);
    assert forall|i: int| 0 <= i < events.len() && (#[trigger] events[i]) is RootFlapping implies
        events[i] == (EventModel::RootFlapping {
        ts,
        change_count: count as usize,
        window_ms: Interval { start, end: ts },
        vlan_id: b.vlan_id,
    }) by {
        assert(events[i].kind() == told.kind());
        assert(event::tells(events, EventKind::RootFlapping));
    }
}

/// The state that flags show, as text: forwarding before learning before neither.
pub open spec fn shown_state(flags: BpduFlags) -> Seq<char> {
    if flags.forwarding {
        "Forwarding"@
    } else if flags.learning {
        "Learning"@
    } else {
        "Discarding"@
    }
}

/// A state as text.
pub open spec fn state_text(state: PortState) -> Seq<char> {
    if state == PortState::Forwarding {
        "Forwarding"@
    } else if state == PortState::Learning {
        "Learning"@
    } else {
        "Discarding"@
    }
}

/// A role as text.
pub open spec fn role_text(role: PortRole) -> Seq<char> {
    if role == PortRole::Root {
        "Root"@
    } else if role == PortRole::Designated {
        "Designated"@
    } else if role == PortRole::AlternateBackup {
        "Alternate/Backup"@
    } else {
        "Unknown"@
    }
}

/// The names of the states are different.
proof fn lemma_state_texts()
    ensures
        "Forwarding"@ != "Learning"@,
        "Forwarding"@ != "Discarding"@,
        "Learning"@ != "Discarding"@,
        "Unknown"@ != "Forwarding"@,
        "Unknown"@ != "Learning"@,
        "Unknown"@ != "Discarding"@,
{
    reveal_strlit("Forwarding");
    reveal_strlit("Learning");
    reveal_strlit("Discarding");
    reveal_strlit("Unknown");
    assert("Forwarding"@[0] == 'F' && "Learning"@[0] == 'L' && "Discarding"@[0] == 'D'
        && "Unknown"@[0] == 'U');
}

/// The role and the state that are told of a port.
proof fn lemma_only_port(state: AnalyzerModel, b: Bpdu, ts: Timestamp)
    ensures
        ({
            let key = analyzer::bridge_key(b.sender_mac@, number_of_vlan(b.vlan_id));
            let ports = state.bridges[key].ports;
            let events = state.update_port(b, ts).1;
            let known = ports.contains_key(b.port_id);
            let old = ports[b.port_id];
            &&& event::tells(events, EventKind::PortRoleChange) <==> known && old.role
                != b.flags.port_role
            &&& event::tells(events, EventKind::PortStateChange) <==> !known || state_text(
                old.fsm_state,
            ) != shown_state(b.flags)
            &&& tells_only(
                events,
                EventModel::PortRoleChange {
                    ts,
                    sender_mac: net::mac_text(b.sender_mac@),
                    port_id: b.port_id,
                    old_role: role_text(old.role),
                    new_role: role_text(b.flags.port_role),
                    vlan_id: b.vlan_id,
                },
            )
            &&& tells_only(
                events,
                EventModel::PortStateChange {
                    ts,
                    sender_mac: net::mac_text(b.sender_mac@),
                    port_id: b.port_id,
                    old_state: if known {
                        state_text(old.fsm_state)
                    } else {
                        "Unknown"@
                    },
                    new_state: shown_state(b.flags),
                    vlan_id: b.vlan_id,
                },
            )
        }),
{
    let events = state.update_port(b, ts).1;
    lemma_state_texts();
    if events.len() > 0 {
        assert(events[0].kind() == EventKind::PortRoleChange || events[0].kind()
            == EventKind::PortStateChange);
    }
    if events.len() > 1 {
        assert(events[1].kind() == EventKind::PortStateChange);
    }
}

/// The ports of a bridge are the same when topology changes have been counted.
proof fn lemma_counting_keeps(state: AnalyzerModel, b: Bpdu, ts: Timestamp)
    ensures
        state.count_change(b, ts).0.bridges == state.bridges,
        ({
            let key = analyzer::bridge_key(b.sender_mac@, number_of_vlan(b.vlan_id));
            let met = state.meet_bridge(b, ts).0;
            &&& state.bridges.contains_key(key) ==> met.bridges[key].ports == state.bridges[key].ports
            &&& !state.bridges.contains_key(key) ==> met.bridges[key].ports == Map::<
                u16,
                PortRecord,
            >::empty()
        }),
{
}

/// What a BPDU tells of its port. Where the port is known, another role is told if and
/// only if the recorded one differs from that of the flags, and another state if and
/// only if the recorded one differs from the one that the flags show, each from the old
/// to the new. Of a port that is not known the state is told, and the old one is unknown.
pub proof fn lemma_port_followed(state: AnalyzerModel, b: Bpdu, ts: Timestamp)
    requires
        b.bpdu_type != BpduType::TcnBpdu,
    ensures
        ({
            let events = state.step(b, ts).1;
            let key = analyzer::bridge_key(b.sender_mac@, number_of_vlan(b.vlan_id));
            let ports = state.bridges[key].ports;
            let known = state.bridges.contains_key(key) && ports.contains_key(b.port_id);
            let old = ports[b.port_id];
            &&& event::tells(events, EventKind::PortRoleChange) <==> known && old.role
                != b.flags.port_role
            &&& event::tells(events, EventKind::PortStateChange) <==> !known || state_text(
                old.fsm_state,
            ) != shown_state(b.flags)
            &&& forall|i: int|
                0 <= i < events.len() && (#[trigger] events[i]) is PortRoleChange ==> events[i] == (
                EventModel::PortRoleChange {
                    ts,
                    sender_mac: net::mac_text(b.sender_mac@),
                    port_id: b.port_id,
                    old_role: role_text(old.role),
                    new_role: role_text(b.flags.port_role),
                    vlan_id: b.vlan_id,
                })
            &&& forall|i: int|
                0 <= i < events.len() && (#[trigger] events[i]) is PortStateChange ==> events[i] == (
                EventModel::PortStateChange {
                    ts,
                    sender_mac: net::mac_text(b.sender_mac@),
                    port_id: b.port_id,
                    old_state: if known {
                        state_text(old.fsm_state)
                    } else {
                        "Unknown"@
                    },
                    new_state: shown_state(b.flags),
                    vlan_id: b.vlan_id,
                })
        }),
{
    let events = state.step(b, ts).1;
    let key = analyzer::bridge_key(b.sender_mac@, number_of_vlan(b.vlan_id));
    let met = state.meet_bridge(b, ts).0;
    let rooted = met.follow_root(b, ts).0;
    let changed = rooted.count_change(b, ts).0;
    let known = state.bridges.contains_key(key) && state.bridges[key].ports.contains_key(b.port_id);
    let old = state.bridges[key].ports[b.port_id];
    lemma_counting_keeps(state, b, ts);
    lemma_counting_keeps(rooted, b, ts);
    lemma_following_keeps(met, b, ts);
    lemma_only_port(changed, b, ts);
    let role_change = EventModel::PortRoleChange {
        ts,
        sender_mac: net::mac_text(b.sender_mac@),
        port_id: b.port_id,
        old_role: role_text(changed.bridges[key].ports[b.port_id].role),
        new_role: role_text(b.flags.port_role),
        vlan_id: b.vlan_id,
    };
    let state_change = EventModel::PortStateChange {
        ts,
        sender_mac: net::mac_text(b.sender_mac@),
        port_id: b.port_id,
        old_state: if known {
            state_text(old.fsm_state)
        } else {
            "Unknown"@
        },
        new_state: shown_state(b.flags),
        vlan_id: b.vlan_id,
    };
    lemma_told_at_port(state, b, ts, EventKind::PortRoleChange);
    lemma_told_at_port(state, b, ts, EventKind::PortStateChange);
    lemma_only(state, b, ts, role_change);
    lemma_only(state, b, ts, state_change);
    assert forall|i: int| 0 <= i < events.len() && (#[trigger] events[i]) is PortRoleChange implies
        events[i] == (EventModel::PortRoleChange {
        ts,
        sender_mac: net::mac_text(b.sender_mac@),
        port_id: b.port_id,
        old_role: role_text(old.role),
        new_role: role_text(b.flags.port_role),
        vlan_id: b.vlan_id,
    }) by {
        assert(events[i].kind() == role_change.kind());
        assert(event::tells(events, EventKind::PortRoleChange));
    }
    assert forall|i: int| 0 <= i < events.len() && (#[trigger] events[i]) is PortStateChange implies
        events[i] == state_change by {
        assert(events[i].kind() == state_change.kind());
    }
}

/// What is told of a port is told with its piece.
proof fn lemma_told_at_port(state: AnalyzerModel, b: Bpdu, ts: Timestamp, kind: EventKind)
    requires
        b.bpdu_type != BpduType::TcnBpdu,
        kind == EventKind::PortRoleChange || kind == EventKind::PortStateChange,
    ensures
        ({
            let met = state.meet_bridge(b, ts).0;
            let changed = met.follow_root(b, ts).0.count_change(b, ts).0;
            event::tells(state.step(b, ts).1, kind) <==> event::tells(
                changed.update_port(b, ts).1,
                kind,
            )
        }),
{
    let met = state.meet_bridge(b, ts).0;
    let rooted = met.follow_root(b, ts).0;
    lemma_told_somewhere(state, b, ts, kind);
    lemma_told_of_bridge(state, b, ts, kind);
    lemma_told_of_root(met, b, ts, kind);
    lemma_told_of_change(rooted, b, ts, kind);
    lemma_told_of_claim(state, b, ts, kind);
}

/// A port is known as its last BPDU showed it: the next one from the same port tells
/// another role or state from what the one before had to what it has itself.
pub proof fn lemma_port_goes_on(
    state: AnalyzerModel,
    b: Bpdu,
    ts: Timestamp,
    next: Bpdu,
    later: Timestamp,
)
    requires
        b.bpdu_type != BpduType::TcnBpdu,
        next.bpdu_type != BpduType::TcnBpdu,
        next.sender_mac@ == b.sender_mac@,
        next.vlan_id == b.vlan_id,
        next.port_id == b.port_id,
    ensures
        ({
            let events = state.step(b, ts).0.step(next, later).1;
            &&& event::tells(events, EventKind::PortRoleChange) <==> next.flags.port_role
                != b.flags.port_role
            &&& event::tells(events, EventKind::PortStateChange) <==> shown_state(next.flags)
                != shown_state(b.flags)
            &&& forall|i: int|
                0 <= i < events.len() && (#[trigger] events[i]) is PortRoleChange
                    ==> events[i]->old_role == role_text(b.flags.port_role) && events[i]->new_role
                    == role_text(next.flags.port_role)
            &&& forall|i: int|
                0 <= i < events.len() && (#[trigger] events[i]) is PortStateChange
                    ==> events[i]->old_state == shown_state(b.flags) && events[i]->new_state
                    == shown_state(next.flags)
        }),
{
    lemma_bpdu_remembered(state, b, ts);
    lemma_port_followed(state.step(b, ts).0, next, later);
}

} // verus!
