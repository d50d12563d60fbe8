//! What holds of every capture.

use vstd::prelude::*;

use crate::analyzer;
use crate::analyzer::{AnalyzerModel, Tracker, ROOT_FLAP_THRESHOLD, TC_STORM_THRESHOLD};
use crate::binary64;
use crate::causes;
use crate::event;
use crate::event::{EventKind, EventModel, TimedModel};
use crate::history;
use crate::net;
use crate::net::EtherFrame;
use crate::pcap;
use crate::pcap::PcapHeader;
use crate::pcapng;
use crate::report;
use crate::report::FullReport;
use crate::root_cause;
use crate::root_cause::Lens;
use crate::steps;
use crate::stp;
use crate::stp::{Bpdu, BpduType};
use crate::summary;
use crate::summary::Tally;
use crate::time;
use crate::time::Timestamp;

verus! {

/// What a packet adds to the time line.
pub open spec fn added(packets: Seq<(u32, u32, Seq<u8>)>) -> Seq<TimedModel> {
    let before = report::progress(packets.drop_last());
    let (sec, usec, frame) = packets.last();
    let ts = Timestamp { sec, usec };
    match report::bpdu_in(frame) {
        Some(b) => report::timed(before.state.step(b, ts).1, ts),
        None => Seq::empty(),
    }
}

/// The time line grows by what the last packet adds.
proof fn lemma_added(packets: Seq<(u32, u32, Seq<u8>)>)
    requires
        packets.len() > 0,
    ensures
        report::progress(packets).events == report::progress(packets.drop_last()).events + added(
            packets,
        ),
{
    let before = report::progress(packets.drop_last()).events;
    assert(before + Seq::empty() =~= before);
}

/// The time line of a capture begins with that of its first packets.
pub proof fn lemma_time_line_grows(packets: Seq<(u32, u32, Seq<u8>)>, i: int)
    requires
        0 <= i <= packets.len(),
    ensures
        report::progress(packets.take(i)).events.is_prefix_of(report::progress(packets).events),
    decreases packets.len(),
{
    let few = report::progress(packets.take(i)).events;
    let all = report::progress(packets).events;
    if i == packets.len() {
        assert(packets.take(i) =~= packets);
        assert(all.take(all.len() as int) =~= all);
    } else {
        lemma_added(packets);
        lemma_time_line_grows(packets.drop_last(), i);
        assert(packets.drop_last().take(i) =~= packets.take(i));
        let most = report::progress(packets.drop_last()).events;
        assert(few =~= most.take(few.len() as int));
        assert(few =~= all.take(few.len() as int));
    }
}

/// The event is as severe as its kind and stands at its own time.
pub open spec fn sound(e: TimedModel) -> bool {
    e.severity == e.event.severity() && e.ts == e.event.time()
}

/// Events that have the time `ts` of their own are sound in a time line at `ts`.
proof fn lemma_timed_sound(events: Seq<EventModel>, ts: Timestamp, vlan_id: Option<u16>)
    requires
        steps::dated(events, ts, vlan_id),
    ensures
        forall|i: int|
            0 <= i < report::timed(events, ts).len() ==> sound(
                #[trigger] report::timed(events, ts)[i],
            ),
{
    let line = report::timed(events, ts);
    assert forall|i: int| 0 <= i < line.len() implies sound(#[trigger] line[i]) by {
        assert(events[i].time() == ts);
    }
}

/// Every event of a time line is as severe as its kind and stands at its own time.
pub proof fn lemma_time_line(packets: Seq<(u32, u32, Seq<u8>)>)
    ensures
        forall|i: int|
            0 <= i < report::progress(packets).events.len() ==> sound(
                #[trigger] report::progress(packets).events[i],
            ),
    decreases packets.len(),
{
    let events = report::progress(packets).events;
    if packets.len() > 0 {
        let before = report::progress(packets.drop_last());
        let (sec, usec, frame) = packets.last();
        let ts = Timestamp { sec, usec };
        lemma_added(packets);
        lemma_time_line(packets.drop_last());
        let more = added(packets);
        if let Some(b) = report::bpdu_in(frame) {
            steps::lemma_events_dated(before.state, b, ts);
            lemma_timed_sound(before.state.step(b, ts).1, ts, b.vlan_id);
        }
        assert forall|i: int| 0 <= i < events.len() implies sound(#[trigger] events[i]) by {
            if i < before.events.len() {
                assert(events[i] == before.events[i]);
            } else {
                assert(events[i] == more[i - before.events.len()]);
            }
        }
    }
}

/// The figures of a capture: the anomalies are the changes of root, the topology
/// changes, the storms, the flapping and the inferior BPDUs.
pub proof fn lemma_figures(packets: Seq<(u32, u32, Seq<u8>)>)
    ensures
        ({
            let events = report::progress(packets).events;
            Tally::Anomalies.count_in(events) == Tally::RootChanges.count_in(events)
                + Tally::TcEvents.count_in(events) + Tally::TcStorms.count_in(events)
                + Tally::RootFlaps.count_in(events) + Tally::InferiorBpdus.count_in(events)
        }),
{
    let events = report::progress(packets).events;
    lemma_time_line(packets);
    assert forall|i: int| 0 <= i < events.len() implies (#[trigger] events[i]).severity
        == events[i].event.severity() by {
        assert(sound(events[i]));
    }
    summary::lemma_anomalies_add_up(events);
}

/// The VLANs of the BPDUs that were received are those that have a root.
pub proof fn lemma_vlans_have_roots(packets: Seq<(u32, u32, Seq<u8>)>)
    ensures
        summary::vlans_in(report::progress(packets).events) == report::progress(
            packets,
        ).state.roots.dom(),
    decreases packets.len(),
{
    let known = report::progress(packets);
    if packets.len() == 0 {
        assert(summary::vlans_in(known.events) =~= known.state.roots.dom());
    } else {
        let before = report::progress(packets.drop_last());
        let (sec, usec, frame) = packets.last();
        let ts = Timestamp { sec, usec };
        lemma_added(packets);
        lemma_vlans_have_roots(packets.drop_last());
        if let Some(b) = report::bpdu_in(frame) {
            let told = before.state.step(b, ts).1;
            let more = added(packets);
            let vlan = analyzer::vlan_of(b);
            steps::lemma_events_dated(before.state, b, ts);
            assert forall|i: int| 0 <= i < more.len() implies (
                #[trigger] more[i]).event.vlan_number() == vlan by {
                assert(told[i].vlan_id() == b.vlan_id);
            }
            let old_set = summary::vlans_in(before.events);
            let new_set = summary::vlans_in(known.events);
            assert(forall|i: int| 0 <= i < before.events.len() ==> known.events[i] == before.events[i]);
            assert(forall|i: int|
                before.events.len() <= i < known.events.len() ==> known.events[i] == more[i
                    - before.events.len()]);
            if b.bpdu_type == BpduType::TcnBpdu {
                steps::lemma_notification_changes_nothing(before.state, b, ts);
                assert(new_set =~= old_set);
            } else {
                steps::lemma_what_is_told(before.state, b, ts);
                steps::lemma_what_is_changed(before.state, b, ts);
                let at = before.events.len() as int;
                assert(more[0].event == told[0]);
                assert(known.events[at].event is BpduReceived);
                assert(known.events[at].event.vlan_number() == vlan);
                assert(new_set =~= old_set.insert(vlan));
                assert(known.state.roots.dom() =~= before.state.roots.dom().insert(vlan));
            }
        } else {
            assert(known.events =~= before.events);
        }
    }
}

/// Of events that are in order, there is one of each kind that they tell.
proof fn lemma_number_told(events: Seq<EventModel>, ts: Timestamp, kind: EventKind)
    requires
        steps::ordered(events, 0, 11),
    ensures
        summary::number_of(report::timed(events, ts), kind) == (if event::tells(events, kind) {
            1nat
        } else {
            0nat
        }),
    decreases events.len(),
{
    reveal(Seq::filter);
    let line = report::timed(events, ts);
    if events.len() > 0 {
        let front = events.drop_last();
        assert(line.drop_last() =~= report::timed(front, ts));
        assert(forall|i: int| 0 <= i < front.len() ==> front[i] == events[i]);
        lemma_number_told(front, ts, kind);
        let last = events.len() - 1;
        if events[last].kind() == kind {
            assert(event::tells(events, kind));
            if event::tells(front, kind) {
                let i = choose|i: int| 0 <= i < front.len() && (#[trigger] front[i]).kind() == kind;
                assert(steps::place(events[i].kind()) < steps::place(events[last].kind()));
            }
        } else {
            if event::tells(events, kind) {
                let i = choose|i: int| 0 <= i < events.len() && (#[trigger] events[i]).kind()
                    == kind;
                assert(front[i].kind() == kind);
            }
            if event::tells(front, kind) {
                let i = choose|i: int| 0 <= i < front.len() && (#[trigger] front[i]).kind() == kind;
                assert(events[i].kind() == kind);
            }
        }
    }
}

/// How many events of a kind the last packet adds.
proof fn lemma_number_added(packets: Seq<(u32, u32, Seq<u8>)>, kind: EventKind)
    requires
        packets.len() > 0,
    ensures
        ({
            let before = report::progress(packets.drop_last());
            let (sec, usec, frame) = packets.last();
            let ts = Timestamp { sec, usec };
            summary::number_of(report::progress(packets).events, kind) == summary::number_of(
                before.events,
                kind,
            ) + match report::bpdu_in(frame) {
                Some(b) => if event::tells(before.state.step(b, ts).1, kind) {
                    1nat
                } else {
                    0nat
                },
                None => 0nat,
            }
        }),
{
    let before = report::progress(packets.drop_last());
    let (sec, usec, frame) = packets.last();
    let ts = Timestamp { sec, usec };
    lemma_added(packets);
    summary::lemma_number_concat(before.events, added(packets), kind);
    if let Some(b) = report::bpdu_in(frame) {
        steps::lemma_events_ordered(before.state, b, ts);
        lemma_number_told(before.state.step(b, ts).1, ts, kind);
    } else {
        reveal(Seq::filter);
    }
}

/// What a notification tells: that it came.
proof fn lemma_notification_tells(state: AnalyzerModel, b: Bpdu, ts: Timestamp, kind: EventKind)
    requires
        b.bpdu_type == BpduType::TcnBpdu,
    ensures
        event::tells(state.step(b, ts).1, kind) <==> kind == EventKind::TcnReceived,
{
    steps::lemma_notification_changes_nothing(state, b, ts);
    assert(state.step(b, ts).1[0].kind() == EventKind::TcnReceived);
}

/// Each bridge is discovered once, and each VLAN has one election: there are as
/// many discoveries as bridges, and as many elections as roots.
pub proof fn lemma_discoveries(packets: Seq<(u32, u32, Seq<u8>)>)
    ensures
        ({
            let known = report::progress(packets);
            &&& known.state.bridges.dom().finite()
            &&& known.state.roots.dom().finite()
            &&& summary::number_of(known.events, EventKind::BridgeDiscovered)
                == known.state.bridges.dom().len()
            &&& summary::number_of(known.events, EventKind::RootElected)
                == known.state.roots.dom().len()
        }),
    decreases packets.len(),
{
    if packets.len() == 0 {
        reveal(Seq::filter);
    } else {
        let known = report::progress(packets);
        let before = report::progress(packets.drop_last());
        let (sec, usec, frame) = packets.last();
        let ts = Timestamp { sec, usec };
        lemma_discoveries(packets.drop_last());
        lemma_number_added(packets, EventKind::BridgeDiscovered);
        lemma_number_added(packets, EventKind::RootElected);
        if let Some(b) = report::bpdu_in(frame) {
            if b.bpdu_type == BpduType::TcnBpdu {
                steps::lemma_notification_changes_nothing(before.state, b, ts);
                lemma_notification_tells(before.state, b, ts, EventKind::BridgeDiscovered);
                lemma_notification_tells(before.state, b, ts, EventKind::RootElected);
            } else {
                let vlan = analyzer::vlan_of(b);
                let key = analyzer::bridge_key(b.sender_mac@, vlan);
                steps::lemma_what_is_told(before.state, b, ts);
                steps::lemma_what_is_changed(before.state, b, ts);
                assert(known.state.roots.dom() =~= before.state.roots.dom().insert(vlan));
                assert(known.state.bridges.dom() =~= before.state.bridges.dom().insert(key));
            }
        }
    }
}

/// Every packet with a BPDU is told of once, as a BPDU or as a notification.
pub proof fn lemma_every_bpdu_told(packets: Seq<(u32, u32, Seq<u8>)>)
    ensures
        ({
            let known = report::progress(packets);
            &&& known.stp_packets <= packets.len()
            &&& known.stp_packets == summary::number_of(known.events, EventKind::BpduReceived)
                + summary::number_of(known.events, EventKind::TcnReceived)
        }),
    decreases packets.len(),
{
    if packets.len() == 0 {
        reveal(Seq::filter);
    } else {
        let before = report::progress(packets.drop_last());
        let (sec, usec, frame) = packets.last();
        let ts = Timestamp { sec, usec };
        lemma_every_bpdu_told(packets.drop_last());
        lemma_number_added(packets, EventKind::BpduReceived);
        lemma_number_added(packets, EventKind::TcnReceived);
        if let Some(b) = report::bpdu_in(frame) {
            if b.bpdu_type == BpduType::TcnBpdu {
                lemma_notification_tells(before.state, b, ts, EventKind::BpduReceived);
                lemma_notification_tells(before.state, b, ts, EventKind::TcnReceived);
            } else {
                steps::lemma_what_is_told(before.state, b, ts);
                assert(before.state.step(b, ts).1[0].kind() == EventKind::BpduReceived);
            }
        }
    }
}

/// How many changes are counted in the window of a VLAN and have not been told of
/// as a storm or as flapping.
pub open spec fn untold(windows: Map<u16, Tracker>, told: Set<u64>, vlan: u16) -> nat {
    if windows.contains_key(vlan) && !told.contains(
        analyzer::window_key(vlan, windows[vlan].window_start.sec),
    ) {
        windows[vlan].count as nat
    } else {
        0
    }
}

/// As [`untold`], in all VLANs below `n` together.
pub open spec fn untold_below(windows: Map<u16, Tracker>, told: Set<u64>, n: nat) -> nat
    decreases n,
{
    if n == 0 {
        0
    } else {
        untold_below(windows, told, (n - 1) as nat) + untold(windows, told, (n - 1) as u16)
    }
}

/// Where two states differ in one VLAN alone, so do the sums.
proof fn lemma_untold_differs(
    windows: Map<u16, Tracker>,
    told: Set<u64>,
    now: Map<u16, Tracker>,
    told_now: Set<u64>,
    vlan: u16,
    n: nat,
)
    requires
        n <= 0x1_0000,
        forall|v: u16| v != vlan ==> #[trigger] untold(windows, told, v) == untold(now, told_now, v),
    ensures
        untold_below(now, told_now, n) + (if vlan < n {
            untold(windows, told, vlan)
        } else {
            0nat
        }) == untold_below(windows, told, n) + (if vlan < n {
            untold(now, told_now, vlan)
        } else {
            0nat
        }),
    decreases n,
{
    if n > 0 {
        lemma_untold_differs(windows, told, now, told_now, vlan, (n - 1) as nat);
        if n - 1 != vlan {
            assert(untold(windows, told, (n - 1) as u16) == untold(now, told_now, (n - 1) as u16));
        }
    }
}

/// Nothing is counted before the first packet.
proof fn lemma_untold_initially(n: nat)
    ensures
        untold_below(Map::empty(), Set::empty(), n) == 0,
    decreases n,
{
    if n > 0 {
        lemma_untold_initially((n - 1) as nat);
    }
}

/// A BPDU with the topology change flag counts one change in its VLAN; a storm
/// takes all that were counted.
proof fn lemma_untold_storm(state: AnalyzerModel, b: Bpdu, ts: Timestamp)
    requires
        b.bpdu_type != BpduType::TcnBpdu,
        state.counts_within(usize::MAX - 1),
    ensures
        ({
            let (after, events) = state.step(b, ts);
            let was = untold_below(state.tc_windows, state.storms, 0x1_0000);
            let is = untold_below(after.tc_windows, after.storms, 0x1_0000);
            &&& event::tells(events, EventKind::TcStorm) ==> is + TC_STORM_THRESHOLD <= was + 1
            &&& b.flags.tc ==> is <= was + 1
            &&& !b.flags.tc ==> is == was
        }),
{
    let after = state.step(b, ts).0;
    let vlan = analyzer::vlan_of(b);
    steps::lemma_what_is_told(state, b, ts);
    steps::lemma_told_once(state, b, ts);
    steps::lemma_what_is_changed(state, b, ts);
    assert forall|v: u16| v != vlan implies #[trigger] untold(state.tc_windows, state.storms, v)
        == untold(after.tc_windows, after.storms, v) by {}
    lemma_untold_differs(
        state.tc_windows,
        state.storms,
        after.tc_windows,
        after.storms,
        vlan,
        0x1_0000,
    );
}

/// A BPDU that names another root counts one change in its VLAN; flapping takes
/// all that were counted.
proof fn lemma_untold_flapping(state: AnalyzerModel, b: Bpdu, ts: Timestamp)
    requires
        b.bpdu_type != BpduType::TcnBpdu,
        state.counts_within(usize::MAX - 1),
    ensures
        ({
            let (after, events) = state.step(b, ts);
            let was = untold_below(state.root_windows, state.flaps, 0x1_0000);
            let is = untold_below(after.root_windows, after.flaps, 0x1_0000);
            &&& event::tells(events, EventKind::RootFlapping) ==> is + ROOT_FLAP_THRESHOLD <= was
                + 1
            &&& state.root_changes(b) ==> is <= was + 1
            &&& !state.root_changes(b) ==> is == was
        }),
{
    let after = state.step(b, ts).0;
    let vlan = analyzer::vlan_of(b);
    steps::lemma_what_is_told(state, b, ts);
    steps::lemma_told_once(state, b, ts);
    steps::lemma_what_is_changed(state, b, ts);
    assert forall|v: u16| v != vlan implies #[trigger] untold(state.root_windows, state.flaps, v)
        == untold(after.root_windows, after.flaps, v) by {}
    lemma_untold_differs(
        state.root_windows,
        state.flaps,
        after.root_windows,
        after.flaps,
        vlan,
        0x1_0000,
    );
}

/// The changes that were told of pay for the storms and the flapping, and for what
/// is counted and not told of yet.
proof fn lemma_changes_pay(packets: Seq<(u32, u32, Seq<u8>)>)
    requires
        packets.len() <= usize::MAX,
    ensures
        ({
            let known = report::progress(packets);
            &&& known.state.counts_within(packets.len() as int)
            &&& TC_STORM_THRESHOLD * summary::number_of(known.events, EventKind::TcStorm)
                + untold_below(known.state.tc_windows, known.state.storms, 0x1_0000)
                <= summary::number_of(known.events, EventKind::TopologyChange)
            &&& ROOT_FLAP_THRESHOLD * summary::number_of(known.events, EventKind::RootFlapping)
                + untold_below(known.state.root_windows, known.state.flaps, 0x1_0000)
                <= summary::number_of(known.events, EventKind::RootChanged)
        }),
    decreases packets.len(),
{
    if packets.len() == 0 {
        reveal(Seq::filter);
        lemma_untold_initially(0x1_0000);
    } else {
        let before = report::progress(packets.drop_last());
        let (sec, usec, frame) = packets.last();
        let ts = Timestamp { sec, usec };
        lemma_changes_pay(packets.drop_last());
        lemma_number_added(packets, EventKind::TcStorm);
        lemma_number_added(packets, EventKind::TopologyChange);
        lemma_number_added(packets, EventKind::RootFlapping);
        lemma_number_added(packets, EventKind::RootChanged);
        if let Some(b) = report::bpdu_in(frame) {
            steps::lemma_counts_grow_slowly(before.state, b, ts, packets.len() - 1);
            if b.bpdu_type == BpduType::TcnBpdu {
                steps::lemma_notification_changes_nothing(before.state, b, ts);
                lemma_notification_tells(before.state, b, ts, EventKind::TcStorm);
                lemma_notification_tells(before.state, b, ts, EventKind::TopologyChange);
                lemma_notification_tells(before.state, b, ts, EventKind::RootFlapping);
                lemma_notification_tells(before.state, b, ts, EventKind::RootChanged);
            } else {
                steps::lemma_what_is_told(before.state, b, ts);
                lemma_untold_storm(before.state, b, ts);
                lemma_untold_flapping(before.state, b, ts);
            }
        }
    }
}

/// For each storm there are ten topology changes, and for each flapping three
/// changes of root.
pub proof fn lemma_thresholds(packets: Seq<(u32, u32, Seq<u8>)>)
    requires
        packets.len() <= usize::MAX,
    ensures
        ({
            let events = report::progress(packets).events;
            &&& 10 * summary::number_of(events, EventKind::TcStorm) <= summary::number_of(
                events,
                EventKind::TopologyChange,
            )
            &&& 3 * summary::number_of(events, EventKind::RootFlapping) <= summary::number_of(
                events,
                EventKind::RootChanged,
            )
        }),
{
    lemma_changes_pay(packets);
}

/// A bridge that is discovered with a BPDU has the address of its sender, and is
/// remembered with it.
proof fn lemma_discovery(state: AnalyzerModel, b: Bpdu, ts: Timestamp)
    ensures
        ({
            let (after, events) = state.step(b, ts);
            let key = analyzer::bridge_key(b.sender_mac@, analyzer::vlan_of(b));
            let text = net::mac_text(b.sender_mac@);
            &&& b.bpdu_type != BpduType::TcnBpdu ==> (event::tells(
                events,
                EventKind::BridgeDiscovered,
            ) <==> !state.bridges.contains_key(key))
            &&& forall|i: int|
                0 <= i < events.len() && (#[trigger] events[i]) is BridgeDiscovered
                    ==> !state.bridges.contains_key(key)
                    && events[i]->BridgeDiscovered_bridge_mac == text
            &&& b.bpdu_type != BpduType::TcnBpdu && !state.bridges.contains_key(key)
                ==> after.bridges.contains_key(key) && after.bridges[key].bridge_mac == text
        }),
{
    let events = state.step(b, ts).1;
    if b.bpdu_type != BpduType::TcnBpdu {
        steps::lemma_what_is_told(state, b, ts);
        steps::lemma_events_ordered(state, b, ts);
        let (met, discovered) = state.meet_bridge(b, ts);
        assert forall|i: int| 0 <= i < events.len() && (#[trigger] events[i]) is BridgeDiscovered
            implies !state.bridges.contains_key(
            analyzer::bridge_key(b.sender_mac@, analyzer::vlan_of(b)),
        ) && events[i]->BridgeDiscovered_bridge_mac == net::mac_text(b.sender_mac@) by {
            assert(events[i].kind() == EventKind::BridgeDiscovered);
            assert(event::tells(events, EventKind::BridgeDiscovered));
            assert(discovered.len() == 1);
            assert(events[1] == discovered[0]);
            if i == 0 {
                assert(events[0].kind() == EventKind::BpduReceived);
            } else if i > 1 {
                assert(steps::place(events[1].kind()) < steps::place(events[i].kind()));
            }
        }
    }
}

/// A bridge of that address is remembered.
pub open spec fn remembers(state: AnalyzerModel, mac: Seq<char>) -> bool {
    exists|key: u64| #[trigger]
        state.bridges.contains_key(key) && state.bridges[key].bridge_mac == mac
}

/// A bridge of that address is told of.
pub open spec fn discovers(events: Seq<EventModel>, mac: Seq<char>) -> bool {
    exists|i: int|
        0 <= i < events.len() && (#[trigger] events[i]) is BridgeDiscovered
            && events[i]->BridgeDiscovered_bridge_mac == mac
}

/// After a BPDU those bridges are remembered that were, and the one it tells of.
proof fn lemma_remembers(state: AnalyzerModel, b: Bpdu, ts: Timestamp, mac: Seq<char>)
    ensures
        remembers(state.step(b, ts).0, mac) <==> remembers(state, mac) || discovers(
            state.step(b, ts).1,
            mac,
        ),
{
    let (after, events) = state.step(b, ts);
    let key = analyzer::bridge_key(b.sender_mac@, analyzer::vlan_of(b));
    lemma_discovery(state, b, ts);
    steps::lemma_nothing_forgotten(state, b, ts);
    if b.bpdu_type != BpduType::TcnBpdu {
        steps::lemma_what_is_changed(state, b, ts);
        if remembers(after, mac) {
            let k = choose|k: u64| #[trigger]
                after.bridges.contains_key(k) && after.bridges[k].bridge_mac == mac;
            if state.bridges.contains_key(k) {
                assert(state.bridges[k].bridge_mac == mac);
            } else {
                assert(k == key);
                assert(event::tells(events, EventKind::BridgeDiscovered));
                let i = choose|i: int|
                    0 <= i < events.len() && (#[trigger] events[i]).kind()
                        == EventKind::BridgeDiscovered;
                assert(events[i] is BridgeDiscovered);
            }
        }
        if remembers(state, mac) {
            let k = choose|k: u64| #[trigger]
                state.bridges.contains_key(k) && state.bridges[k].bridge_mac == mac;
            assert(after.bridges.contains_key(k));
        }
    } else {
        steps::lemma_notification_changes_nothing(state, b, ts);
    }
}

/// A time line tells of the bridges that its two parts tell of.
proof fn lemma_bridges_concat(
    before: Seq<TimedModel>,
    events: Seq<EventModel>,
    ts: Timestamp,
    mac: Seq<char>,
)
    ensures
        summary::bridges_in(before + report::timed(events, ts)).contains(mac)
            <==> summary::bridges_in(before).contains(mac) || discovers(events, mac),
{
    let line = report::timed(events, ts);
    let all = before + line;
    if summary::bridges_in(before).contains(mac) {
        let i = choose|i: int|
            0 <= i < before.len() && (#[trigger] before[i].event) is BridgeDiscovered
                && before[i].event->BridgeDiscovered_bridge_mac == mac;
        assert(all[i].event is BridgeDiscovered);
    }
    if discovers(events, mac) {
        let i = choose|i: int|
            0 <= i < events.len() && (#[trigger] events[i]) is BridgeDiscovered
                && events[i]->BridgeDiscovered_bridge_mac == mac;
        assert(all[before.len() + i].event == events[i]);
    }
    if summary::bridges_in(all).contains(mac) {
        let i = choose|i: int|
            0 <= i < all.len() && (#[trigger] all[i].event) is BridgeDiscovered
                && all[i].event->BridgeDiscovered_bridge_mac == mac;
        if i < before.len() {
            assert(before[i].event is BridgeDiscovered);
        } else {
            assert(events[i - before.len()] == all[i].event);
        }
    }
}

/// The bridges that were discovered have the addresses of those that are
/// remembered.
pub proof fn lemma_bridges_remembered(packets: Seq<(u32, u32, Seq<u8>)>, mac: Seq<char>)
    ensures
        summary::bridges_in(report::progress(packets).events).contains(mac) <==> remembers(
            report::progress(packets).state,
            mac,
        ),
    decreases packets.len(),
{
    if packets.len() > 0 {
        let before = report::progress(packets.drop_last());
        let (sec, usec, frame) = packets.last();
        let ts = Timestamp { sec, usec };
        lemma_bridges_remembered(packets.drop_last(), mac);
        if let Some(b) = report::bpdu_in(frame) {
            lemma_remembers(before.state, b, ts, mac);
            lemma_bridges_concat(before.events, before.state.step(b, ts).1, ts, mac);
        }
    }
}

/// Where no packet carries a BPDU, there is nothing to tell.
proof fn lemma_nothing_told(packets: Seq<(u32, u32, Seq<u8>)>)
    requires
        forall|i: int|
            0 <= i < packets.len() ==> report::bpdu_in((#[trigger] packets[i]).2) is None,
    ensures
        report::progress(packets).state == AnalyzerModel::initial(),
        report::progress(packets).events.len() == 0,
        report::progress(packets).stp_packets == 0,
    decreases packets.len(),
{
    if packets.len() > 0 {
        let front = packets.drop_last();
        assert(forall|i: int| 0 <= i < front.len() ==> front[i] == packets[i]);
        assert(packets.last() == packets[packets.len() - 1]);
        lemma_nothing_told(front);
    }
}

/// A capture without BPDUs gets the all-clear: no problem, a settled network, and
/// nothing to do.
pub proof fn lemma_quiet_capture(packets: Seq<(u32, u32, Seq<u8>)>)
    requires
        forall|i: int|
            0 <= i < packets.len() ==> report::bpdu_in((#[trigger] packets[i]).2) is None,
    ensures
        ({
            let r = root_cause::report_of(report::progress(packets).events);
            &&& r.causes == seq![root_cause::all_clear()]
            &&& r.stable
            &&& r.verdict == "STP topology stable. No anomalies detected."@
            &&& r.action_plan == seq!["No action required."@]
        }),
{
    let events = report::progress(packets).events;
    lemma_nothing_told(packets);
    causes::lemma_all_clear(events);
    causes::lemma_settled(events);
    causes::lemma_selected(events, Lens::Flapping);
    causes::lemma_selected(events, Lens::RootChange);
    causes::lemma_selected(events, Lens::Takeover);
    causes::lemma_selected(events, Lens::Storm);
    assert(root_cause::problems(events) =~= Seq::empty());
}

/// The same packets are found in a file of either format and either byte order.
pub proof fn lemma_formats_agree(
    header: PcapHeader,
    thiszone: u32,
    sigfigs: u32,
    big_endian: bool,
    more: Seq<u8>,
    reserved: u16,
    snaplen: u32,
    packets: Seq<(u32, u32, Seq<u8>)>,
    orig_lens: Seq<u32>,
)
    requires
        header.magic == (if header.big_endian {
            pcap::MAGIC_BE
        } else {
            pcap::MAGIC_LE
        }),
        header.network == 1,
        4 <= more.len() <= u32::MAX - 12,
        orig_lens.len() == packets.len(),
        forall|i: int| 0 <= i < packets.len() ==> #[trigger] pcapng::can_be_written(packets[i]),
    ensures
        report::packets_of(
            pcap::header_bytes(header, thiszone, sigfigs) + pcap::all_record_bytes(
                packets,
                orig_lens,
                header.big_endian,
            ),
        ) == Ok::<_, Seq<char>>(packets),
        report::packets_of(
            pcapng::file_bytes(big_endian, more, reserved, snaplen, packets, orig_lens),
        ) == Ok::<_, Seq<char>>(packets),
{
    let old_file = pcap::header_bytes(header, thiszone, sigfigs) + pcap::all_record_bytes(
        packets,
        orig_lens,
        header.big_endian,
    );
    let new_file = pcapng::file_bytes(big_endian, more, reserved, snaplen, packets, orig_lens);
    assert(old_file + Seq::empty() =~= old_file);
    assert(new_file + Seq::empty() =~= new_file);
    assert forall|i: int| 0 <= i < packets.len() implies (#[trigger] packets[i]).2.len()
        <= u32::MAX by {
        assert(pcapng::can_be_written(packets[i]));
    }
    pcap::lemma_capture_read_back(
        header,
        thiszone,
        sigfigs,
        packets,
        orig_lens,
        Seq::empty(),
    );
    pcapng::lemma_file_read_back(
        big_endian,
        more,
        reserved,
        snaplen,
        packets,
        orig_lens,
        Seq::empty(),
    );
}

/// The BPDUs of a capture, with the times of their packets.
pub open spec fn bpdus_in(packets: Seq<(u32, u32, Seq<u8>)>) -> Seq<(Bpdu, Timestamp)>
    decreases packets.len(),
{
    if packets.len() == 0 {
        Seq::empty()
    } else {
        let before = bpdus_in(packets.drop_last());
        let (sec, usec, frame) = packets.last();
        match report::bpdu_in(frame) {
            Some(b) => before.push((b, Timestamp { sec, usec })),
            None => before,
        }
    }
}

/// The events of a time line alone.
pub open spec fn untimed(line: Seq<TimedModel>) -> Seq<EventModel> {
    line.map_values(|e: TimedModel| e.event)
}

/// Events that are put in a time line are those that are found in it.
proof fn lemma_untimed(before: Seq<TimedModel>, events: Seq<EventModel>, ts: Timestamp)
    ensures
        untimed(before + report::timed(events, ts)) == untimed(before) + events,
{
    assert(untimed(before + report::timed(events, ts)) =~= untimed(before) + events);
}

/// The time line of a capture tells what its BPDUs tell one after the other, so
/// that what holds of any number of BPDUs holds of captures.
pub proof fn lemma_capture_is_history(packets: Seq<(u32, u32, Seq<u8>)>)
    ensures
        ({
            let known = report::progress(packets);
            let (state, events) = history::replay(AnalyzerModel::initial(), bpdus_in(packets));
            &&& known.state == state
            &&& untimed(known.events) == events
            &&& known.stp_packets == bpdus_in(packets).len()
        }),
    decreases packets.len(),
{
    let known = report::progress(packets);
    if packets.len() == 0 {
        assert(untimed(known.events) =~= Seq::empty());
    } else {
        let front = packets.drop_last();
        let before = report::progress(front);
        let (sec, usec, frame) = packets.last();
        let ts = Timestamp { sec, usec };
        lemma_capture_is_history(front);
        if let Some(b) = report::bpdu_in(frame) {
            let bpdus = bpdus_in(packets);
            assert(bpdus.drop_last() =~= bpdus_in(front));
            lemma_untimed(before.events, before.state.step(b, ts).1, ts);
        }
    }
}

/// An inferior BPDU names another root, so that there are no more of them than
/// changes of root.
pub proof fn lemma_inferior_change_root(packets: Seq<(u32, u32, Seq<u8>)>)
    ensures
        ({
            let events = report::progress(packets).events;
            summary::number_of(events, EventKind::InferiorBpdu) <= summary::number_of(
                events,
                EventKind::RootChanged,
            )
        }),
    decreases packets.len(),
{
    if packets.len() == 0 {
        reveal(Seq::filter);
    } else {
        let before = report::progress(packets.drop_last());
        let (sec, usec, frame) = packets.last();
        let ts = Timestamp { sec, usec };
        lemma_inferior_change_root(packets.drop_last());
        lemma_number_added(packets, EventKind::InferiorBpdu);
        lemma_number_added(packets, EventKind::RootChanged);
        if let Some(b) = report::bpdu_in(frame) {
            if b.bpdu_type == BpduType::TcnBpdu {
                lemma_notification_tells(before.state, b, ts, EventKind::InferiorBpdu);
                lemma_notification_tells(before.state, b, ts, EventKind::RootChanged);
            } else {
                steps::lemma_what_is_told(before.state, b, ts);
            }
        }
    }
}

/// The format of a file is known by its first four bytes.
pub proof fn lemma_which_format(s: Seq<u8>)
    ensures
        s.len() >= 4 && s.take(4) == seq![0x0Au8, 0x0Du8, 0x0Du8, 0x0Au8] ==> report::packets_of(s)
            == pcapng::capture_of(s),
        s.len() < 4 || s.take(4) != seq![0x0Au8, 0x0Du8, 0x0Du8, 0x0Au8] ==> report::packets_of(s)
            == match pcap::capture_of(s) {
            Ok((_, packets)) => Ok(packets),
            Err(message) => Err(message),
        },
{
    pcapng::lemma_complaints(s);
}

/// A BPDU that is put in a frame is found there, with the source address of the frame as
/// its sender and the VLAN of the frame as its own.
pub proof fn lemma_bpdu_found(
    b: Bpdu,
    version: u8,
    rest: Seq<u8>,
    info: EtherFrame,
    priority: int,
    length: u16,
    control: u8,
    snap: Option<Seq<u8>>,
)
    requires
        b.bpdu_type != BpduType::TcnBpdu,
        b.is_rstp == (b.bpdu_type == BpduType::RstBpdu),
        b.sender_mac == info.src_mac,
        b.vlan_id == info.vlan_id,
        net::kind_of(info.dst_mac@) == Some(info.kind),
        info.vlan_id matches Some(v) ==> v < 4096,
        0 <= priority < 16,
        length < 0x0600,
        snap matches Some(protocol) ==> protocol.len() == 5,
    ensures
        report::bpdu_in(
            net::frame_bytes(
                info,
                priority,
                length,
                net::llc_bytes(control, snap),
                b.encoded(version) + rest,
            ),
        ) == Some(b),
{
    stp::lemma_bpdu_read_back(b, version, rest);
    net::lemma_frame_read_back(info, priority, length, control, snap, b.encoded(version) + rest);
}

/// The packets of a capture that carry a BPDU are counted.
proof fn lemma_stp_packets(packets: Seq<(u32, u32, Seq<u8>)>)
    ensures
        report::progress(packets).stp_packets == packets.filter(
            |p: (u32, u32, Seq<u8>)| report::bpdu_in(p.2) is Some,
        ).len(),
    decreases packets.len(),
{
    reveal(Seq::filter);
    if packets.len() > 0 {
        lemma_stp_packets(packets.drop_last());
    }
}

/// A report counts all packets and those with a BPDU, and lasts from the first packet to
/// the last: in whole seconds exactly as long as they are apart, and not at all where there
/// is no packet. Its figures, its causes and its topology are those of its own time line.
pub proof fn lemma_full_report(r: FullReport, packets: Seq<(u32, u32, Seq<u8>)>)
    requires
        r.describes(packets),
    ensures
        ({
            let events = event::timed_views(r.events@);
            &&& r.total_packets == packets.len()
            &&& r.stp_packets == packets.filter(
                |p: (u32, u32, Seq<u8>)| report::bpdu_in(p.2) is Some,
            ).len()
            &&& packets.len() == 0 ==> r.duration_sec.units() == 0
            &&& packets.len() > 0 && packets[0].1 == 0 && packets[packets.len() - 1].1 == 0
                ==> r.duration_sec.units() == (packets[packets.len() - 1].0 - packets[0].0)
                * time::one()
            &&& untimed(events) == history::replay(AnalyzerModel::initial(), bpdus_in(packets)).1
            &&& r.summary.sums_up(events)
            &&& r.root_cause@ == root_cause::report_of(events)
            &&& r.stp_packets == summary::number_of(events, EventKind::BpduReceived)
                + summary::number_of(events, EventKind::TcnReceived)
            &&& r.topology.bridges@.len() == summary::number_of(events, EventKind::BridgeDiscovered)
            &&& r.topology.roots@.len() == summary::number_of(events, EventKind::RootElected)
            &&& r.topology.roots@.len() == r.summary.vlans_seen
        }),
{
    let known = report::progress(packets);
    lemma_stp_packets(packets);
    lemma_capture_is_history(packets);
    lemma_every_bpdu_told(packets);
    lemma_discoveries(packets);
    lemma_vlans_have_roots(packets);
    analyzer::lemma_roots_listed(r.topology, known.state.roots, 0, 0);
    analyzer::lemma_bridges_listed(r.topology, known.state.bridges, 0, 0);
    binary64::lemma_nearest_zero(1);
    if packets.len() > 0 && packets[0].1 == 0 && packets[packets.len() - 1].1 == 0 {
        let first = report::first_time(packets);
        let last = report::last_time(packets);
        time::lemma_whole_seconds(first, first);
        time::lemma_whole_seconds(last, last);
        lemma_whole_difference(last.sec, first.sec);
    }
}

/// The difference of whole seconds needs no rounding.
proof fn lemma_whole_difference(a: u32, b: u32)
    ensures
        binary64::nearest(a * time::one() - b * time::one(), 1) == (a - b) * time::one(),
{
    let u = time::one();
    let m: nat = if a >= b {
        (a - b) as nat
    } else {
        (b - a) as nat
    };
    binary64::lemma_nearest_exact(m, binary64::UNIT_BITS as nat);
    assert(a * u - b * u == (a - b) * u && m * u >= 0 && (a >= b ==> (a - b) * u == m * u) && (a < b
        ==> (a - b) * u == -(m * u))) by (nonlinear_arith)
        requires
            m == (if a >= b {
                a - b
            } else {
                b - a
            }),
            u >= 0,
    ;
}

/// Where the packets go on, so does the report: one more packet without a BPDU changes
/// neither the time line nor what is known, and one with a BPDU adds what it tells, at its
/// own time, and counts once.
pub proof fn lemma_one_more_packet(packets: Seq<(u32, u32, Seq<u8>)>, packet: (u32, u32, Seq<u8>))
    ensures
        ({
            let before = report::progress(packets);
            let after = report::progress(packets.push(packet));
            let ts = Timestamp { sec: packet.0, usec: packet.1 };
            &&& report::bpdu_in(packet.2) is None ==> after == before
            &&& report::bpdu_in(packet.2) matches Some(b) ==> {
                &&& after.state == before.state.step(b, ts).0
                &&& after.stp_packets == before.stp_packets + 1
                &&& after.events.take(before.events.len() as int) == before.events
                &&& after.events.len() == before.events.len() + before.state.step(b, ts).1.len()
                &&& forall|i: int|
                    before.events.len() <= i < after.events.len() ==> {
                        &&& (#[trigger] after.events[i]).event == before.state.step(b, ts).1[i
                            - before.events.len()]
                        &&& after.events[i].ts == ts
                        &&& after.events[i].severity == after.events[i].event.severity()
                    }
            }
        }),
{
    let before = report::progress(packets);
    let after = report::progress(packets.push(packet));
    assert(packets.push(packet).drop_last() =~= packets);
    if report::bpdu_in(packet.2) is Some {
        assert(after.events.take(before.events.len() as int) =~= before.events);
    }
}

} // verus!
