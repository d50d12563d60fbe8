//! How often things happened in a capture.

use std::collections::HashSet;
use vstd::prelude::*;

use crate::event;
use crate::event::{EventKind, EventModel, Severity, StpEvent, TimedEvent, TimedModel};
use crate::text;

verus! {

broadcast use vstd::std_specs::hash::group_hash_axioms;

/// The figures of a time line.
#[derive(Debug, Clone, Copy)]
pub struct ReportSummary {
    pub bridges_seen: usize,
    pub vlans_seen: usize,
    pub root_changes: usize,
    pub tc_events: usize,
    pub anomalies: usize,
    pub tc_storms: usize,
    pub root_flaps: usize,
    pub inferior_bpdus: usize,
}

/// What is counted.
#[derive(Debug, Clone, Copy, PartialEq, Eq, Structural)]
pub enum Tally {
    /// Whatever is more than information.
    Anomalies,
    RootChanges,
    /// Topology changes, by flag or by notification.
    TcEvents,
    TcStorms,
    RootFlaps,
    InferiorBpdus,
}

impl Tally {
    /// Does the event count?
    pub open spec fn counts(self, e: TimedModel) -> bool {
        match self {
            Tally::Anomalies => e.severity != Severity::Info,
            Tally::RootChanges => e.event is RootChanged,
            Tally::TcEvents => e.event is TopologyChange || e.event is TcnReceived,
            Tally::TcStorms => e.event is TcStorm,
            Tally::RootFlaps => e.event is RootFlapping,
            Tally::InferiorBpdus => e.event is InferiorBpdu,
        }
    }

    /// How many of the events count?
    pub open spec fn count_in(self, events: Seq<TimedModel>) -> nat {
        events.filter(|e: TimedModel| self.counts(e)).len()
    }

    /// Does the event count?
    pub fn applies_to(&self, e: &TimedEvent) -> (r: bool)
        ensures
            r == self.counts(e@),
    {
        match self {
            Tally::Anomalies => e.severity != Severity::Info,
            Tally::RootChanges => matches!(e.event, StpEvent::RootChanged { .. }),
            Tally::TcEvents => matches!(
                e.event,
                StpEvent::TopologyChange { .. } | StpEvent::TcnReceived { .. }
            ),
            Tally::TcStorms => matches!(e.event, StpEvent::TcStorm { .. }),
            Tally::RootFlaps => matches!(e.event, StpEvent::RootFlapping { .. }),
            Tally::InferiorBpdus => matches!(e.event, StpEvent::InferiorBpdu { .. }),
        }
    }

    /// How many of the events count?
    pub fn of(&self, events: &Vec<TimedEvent>) -> (r: usize)
        ensures
            r == self.count_in(event::timed_views(events@)),
    {
        let ghost all = event::timed_views(events@);
        let mut n: usize = 0;
        let mut i: usize = 0;
        proof {
            reveal(Seq::filter);
        }
        while i < events.len()
            invariant
                n <= i <= events@.len(),
                all == event::timed_views(events@),
                n == self.count_in(all.take(i as int)),
            decreases events@.len() - i,
        {
            proof {
                reveal(Seq::filter);
                assert(all.take(i + 1).drop_last() =~= all.take(i as int));
            }
            if self.applies_to(&events[i]) {
                n = n + 1;
            }
            i = i + 1;
        }
        assert(all.take(i as int) =~= all);
        n
    }
}

/// The addresses of the bridges that were discovered.
pub open spec fn bridges_in(events: Seq<TimedModel>) -> Set<Seq<char>> {
    Set::new(
        |mac: Seq<char>|
            exists|i: int|
                0 <= i < events.len() && (#[trigger] events[i].event) is BridgeDiscovered
                    && events[i].event->BridgeDiscovered_bridge_mac == mac,
    )
}

/// The VLANs of the BPDUs that were received. A VLAN that is not known is number 0.
pub open spec fn vlans_in(events: Seq<TimedModel>) -> Set<u16> {
    Set::new(
        |vlan: u16|
            exists|i: int|
                0 <= i < events.len() && (#[trigger] events[i].event) is BpduReceived
                    && events[i].event.vlan_number() == vlan,
    )
}

impl ReportSummary {
    /// The figures are those of the time line.
    pub open spec fn sums_up(self, events: Seq<TimedModel>) -> bool {
        &&& bridges_in(events).finite()
        &&& self.bridges_seen == bridges_in(events).len()
        &&& vlans_in(events).finite()
        &&& self.vlans_seen == vlans_in(events).len()
        &&& self.root_changes == Tally::RootChanges.count_in(events)
        &&& self.tc_events == Tally::TcEvents.count_in(events)
        &&& self.anomalies == Tally::Anomalies.count_in(events)
        &&& self.tc_storms == Tally::TcStorms.count_in(events)
        &&& self.root_flaps == Tally::RootFlaps.count_in(events)
        &&& self.inferior_bpdus == Tally::InferiorBpdus.count_in(events)
    }
}

/// How many bridges were discovered?
fn count_bridges(events: &Vec<TimedEvent>) -> (r: usize)
    ensures
        bridges_in(event::timed_views(events@)).finite(),
        r == bridges_in(event::timed_views(events@)).len(),
{
    let ghost all = event::timed_views(events@);
    let mut macs: Vec<String> = Vec::new();
    let mut i: usize = 0;
    assert(bridges_in(all.take(0)) =~= text::views(macs@).to_set());
    while i < events.len()
        invariant
            i <= events@.len(),
            all == event::timed_views(events@),
            text::views(macs@).no_duplicates(),
            text::views(macs@).to_set() == bridges_in(all.take(i as int)),
        decreases events@.len() - i,
    {
        let ghost before = text::views(macs@);
        let ghost seen = bridges_in(all.take(i as int));
        let ghost now = bridges_in(all.take(i + 1));
        assert(all[i as int] == events@[i as int]@);
        assert(forall|j: int| 0 <= j < i ==> all.take(i + 1)[j] == all.take(i as int)[j]);
        if let StpEvent::BridgeDiscovered { bridge_mac, .. } = &events[i].event {
            assert(all.take(i + 1)[i as int].event is BridgeDiscovered);
            assert(now =~= seen.insert(bridge_mac@));
            if !text::holds(&macs, bridge_mac) {
                macs.push(bridge_mac.clone());
                assert(text::views(macs@) =~= before.push(bridge_mac@));
                assert(text::views(macs@).to_set() =~= before.to_set().insert(bridge_mac@)) by {
                    let after = text::views(macs@);
                    assert(after[before.len() as int] == bridge_mac@);
                    assert(forall|j: int| 0 <= j < before.len() ==> after[j] == before[j]);
                }
            } else {
                assert(before.to_set().insert(bridge_mac@) =~= before.to_set());
            }
        } else {
            assert(now =~= seen);
        }
        i = i + 1;
    }
    assert(all.take(i as int) =~= all);
    proof {
        text::views(macs@).unique_seq_to_set();
    }
    macs.len()
}

/// How many VLANs were there?
fn count_vlans(events: &Vec<TimedEvent>) -> (r: usize)
    ensures
        vlans_in(event::timed_views(events@)).finite(),
        r == vlans_in(event::timed_views(events@)).len(),
{
    let ghost all = event::timed_views(events@);
    let mut vlans: HashSet<u16> = HashSet::new();
    let mut i: usize = 0;
    assert(vlans_in(all.take(0)) =~= vlans@);
    while i < events.len()
        invariant
            i <= events@.len(),
            all == event::timed_views(events@),
            vlans@ == vlans_in(all.take(i as int)),
            vlans@.finite(),
        decreases events@.len() - i,
    {
        let ghost seen = vlans_in(all.take(i as int));
        let ghost now = vlans_in(all.take(i + 1));
        assert(all[i as int] == events@[i as int]@);
        assert(forall|j: int| 0 <= j < i ==> all.take(i + 1)[j] == all.take(i as int)[j]);
        if let StpEvent::BpduReceived { vlan_id, .. } = &events[i].event {
            let vlan: u16 = match vlan_id {
                Some(v) => *v,
                None => 0,
            };
            assert(all.take(i + 1)[i as int].event.vlan_number() == vlan);
            assert(now =~= seen.insert(vlan));
            vlans.insert(vlan);
        } else {
            assert(now =~= seen);
        }
        i = i + 1;
    }
    assert(all.take(i as int) =~= all);
    vlans.len()
}

/// The figures of a time line.
pub fn summarize(events: &Vec<TimedEvent>) -> (r: ReportSummary)
    ensures
        r.sums_up(event::timed_views(events@)),
{
    ReportSummary {
        bridges_seen: count_bridges(events),
        vlans_seen: count_vlans(events),
        root_changes: Tally::RootChanges.of(events),
        tc_events: Tally::TcEvents.of(events),
        anomalies: Tally::Anomalies.of(events),
        tc_storms: Tally::TcStorms.of(events),
        root_flaps: Tally::RootFlaps.of(events),
        inferior_bpdus: Tally::InferiorBpdus.of(events),
    }
}

/// Where each event is as severe as its kind, the anomalies are the changes of
/// root, the topology changes, the storms, the flapping and the inferior BPDUs.
pub proof fn lemma_anomalies_add_up(events: Seq<TimedModel>)
    requires
        forall|i: int|
            0 <= i < events.len() ==> (#[trigger] events[i]).severity == events[i].event.severity(),
    ensures
        Tally::Anomalies.count_in(events) == Tally::RootChanges.count_in(events)
            + Tally::TcEvents.count_in(events) + Tally::TcStorms.count_in(events)
            + Tally::RootFlaps.count_in(events) + Tally::InferiorBpdus.count_in(events),
    decreases events.len(),
{
    reveal(Seq::filter);
    if events.len() > 0 {
        let front = events.drop_last();
        assert forall|i: int| 0 <= i < front.len() implies (#[trigger] front[i]).severity
            == front[i].event.severity() by {
            assert(events[i] == front[i]);
        }
        lemma_anomalies_add_up(front);
        assert(events.last() == events[events.len() - 1]);
    }
}

/// How many events are of the kind?
pub open spec fn number_of(events: Seq<TimedModel>, kind: EventKind) -> nat {
    events.filter(|e: TimedModel| e.event.kind() == kind).len()
}

/// Two time lines that follow each other have the events of both.
pub proof fn lemma_number_concat(a: Seq<TimedModel>, b: Seq<TimedModel>, kind: EventKind)
    ensures
        number_of(a + b, kind) == number_of(a, kind) + number_of(b, kind),
{
    Seq::filter_distributes_over_add(a, b, |e: TimedModel| e.event.kind() == kind);
}

/// Nothing is counted in an empty time line, and one more event is counted where it is of
/// its own kind: a change of root, a topology change or a notification of one, a storm,
/// flapping, an inferior BPDU, or whatever is a warning or critical.
pub proof fn lemma_tallies(events: Seq<TimedModel>, e: TimedModel)
    ensures
        forall|tally: Tally| #[trigger] tally.count_in(Seq::empty()) == 0,
        Tally::RootChanges.count_in(events.push(e)) == Tally::RootChanges.count_in(events)
            + (if e.event is RootChanged { 1nat } else { 0nat }),
        Tally::TcEvents.count_in(events.push(e)) == Tally::TcEvents.count_in(events)
            + (if e.event is TopologyChange || e.event is TcnReceived { 1nat } else { 0nat }),
        Tally::TcStorms.count_in(events.push(e)) == Tally::TcStorms.count_in(events)
            + (if e.event is TcStorm { 1nat } else { 0nat }),
        Tally::RootFlaps.count_in(events.push(e)) == Tally::RootFlaps.count_in(events)
            + (if e.event is RootFlapping { 1nat } else { 0nat }),
        Tally::InferiorBpdus.count_in(events.push(e)) == Tally::InferiorBpdus.count_in(events)
            + (if e.event is InferiorBpdu { 1nat } else { 0nat }),
        Tally::Anomalies.count_in(events.push(e)) == Tally::Anomalies.count_in(events)
            + (if e.severity == Severity::Warning || e.severity == Severity::Critical {
            1nat
        } else {
            0nat
        }),
{
    reveal(Seq::filter);
    assert(events.push(e).drop_last() =~= events);
    assert(events.push(e).last() == e);
}

/// One more event is one more of its kind.
pub proof fn lemma_number_push(events: Seq<TimedModel>, e: TimedModel, kind: EventKind)
    ensures
        number_of(Seq::empty(), kind) == 0,
        number_of(events.push(e), kind) == number_of(events, kind) + (if e.event.kind() == kind {
            1nat
        } else {
            0nat
        }),
{
    reveal(Seq::filter);
    assert(events.push(e).drop_last() =~= events);
    assert(events.push(e).last() == e);
}

/// Each figure is the number of events of its own kind in the time line.
proof fn lemma_tallies_by_kind(events: Seq<TimedModel>)
    ensures
        Tally::RootChanges.count_in(events) == number_of(events, EventKind::RootChanged),
        Tally::TcEvents.count_in(events) == number_of(events, EventKind::TopologyChange)
            + number_of(events, EventKind::TcnReceived),
        Tally::TcStorms.count_in(events) == number_of(events, EventKind::TcStorm),
        Tally::RootFlaps.count_in(events) == number_of(events, EventKind::RootFlapping),
        Tally::InferiorBpdus.count_in(events) == number_of(events, EventKind::InferiorBpdu),
    decreases events.len(),
{
    if events.len() == 0 {
        reveal(Seq::filter);
    } else {
        let front = events.drop_last();
        let e = events.last();
        assert(events =~= front.push(e));
        lemma_tallies_by_kind(front);
        lemma_tallies(front, e);
        event::lemma_kinds(e.event);
        lemma_number_push(front, e, EventKind::RootChanged);
        lemma_number_push(front, e, EventKind::TopologyChange);
        lemma_number_push(front, e, EventKind::TcnReceived);
        lemma_number_push(front, e, EventKind::TcStorm);
        lemma_number_push(front, e, EventKind::RootFlapping);
        lemma_number_push(front, e, EventKind::InferiorBpdu);
    }
}

/// Each figure of a summary is the number of events of its own kind in the time line.
pub proof fn lemma_figures_by_kind(summary: ReportSummary, events: Seq<TimedModel>)
    requires
        summary.sums_up(events),
    ensures
        summary.root_changes == number_of(events, EventKind::RootChanged),
        summary.tc_events == number_of(events, EventKind::TopologyChange) + number_of(
            events,
            EventKind::TcnReceived,
        ),
        summary.tc_storms == number_of(events, EventKind::TcStorm),
        summary.root_flaps == number_of(events, EventKind::RootFlapping),
        summary.inferior_bpdus == number_of(events, EventKind::InferiorBpdu),
        summary.anomalies == events.filter(|e: TimedModel| e.severity != Severity::Info).len(),
        summary.bridges_seen == bridges_in(events).len(),
        summary.vlans_seen == vlans_in(events).len(),
{
    lemma_tallies_by_kind(events);
    assert(Tally::Anomalies.count_in(events) == events.filter(
        |e: TimedModel| e.severity != Severity::Info,
    ).len()) by {
        let f = |e: TimedModel| Tally::Anomalies.counts(e);
        let g = |e: TimedModel| e.severity != Severity::Info;
        assert(f =~= g);
    }
}

/// A bridge is seen with its discovery, under its address, and with no other event; a
/// VLAN with a BPDU, where one that is not known is number 0, and with no other event.
pub proof fn lemma_seen(events: Seq<TimedModel>, e: TimedModel)
    ensures
        bridges_in(Seq::empty()) == Set::<Seq<char>>::empty(),
        vlans_in(Seq::empty()) == Set::<u16>::empty(),
        bridges_in(events.push(e)) == match e.event {
            EventModel::BridgeDiscovered { bridge_mac, .. } => bridges_in(events).insert(bridge_mac),
            _ => bridges_in(events),
        },
        vlans_in(events.push(e)) == match e.event {
            EventModel::BpduReceived { vlan_id: Some(v), .. } => vlans_in(events).insert(v),
            EventModel::BpduReceived { vlan_id: None, .. } => vlans_in(events).insert(0),
            _ => vlans_in(events),
        },
{
    let more = events.push(e);
    let last = events.len() as int;
    assert(forall|i: int| 0 <= i < last ==> more[i] == events[i]);
    assert(more[last] == e);
    assert(bridges_in(Seq::empty()) =~= Set::<Seq<char>>::empty());
    assert(vlans_in(Seq::empty()) =~= Set::<u16>::empty());
    assert(bridges_in(more) =~= match e.event {
        EventModel::BridgeDiscovered { bridge_mac, .. } => bridges_in(events).insert(bridge_mac),
        _ => bridges_in(events),
    }) by {
        assert forall|mac: Seq<char>| #[trigger] bridges_in(events).contains(mac) implies bridges_in(
            more,
        ).contains(mac) by {
            let i = choose|i: int|
                0 <= i < events.len() && (#[trigger] events[i].event) is BridgeDiscovered
                    && events[i].event->BridgeDiscovered_bridge_mac == mac;
            assert(more[i].event is BridgeDiscovered);
        }
        assert(more[last].event == e.event);
    }
    assert(vlans_in(more) =~= match e.event {
        EventModel::BpduReceived { vlan_id: Some(v), .. } => vlans_in(events).insert(v),
        EventModel::BpduReceived { vlan_id: None, .. } => vlans_in(events).insert(0),
        _ => vlans_in(events),
    }) by {
        assert forall|vlan: u16| #[trigger] vlans_in(events).contains(vlan) implies vlans_in(
            more,
        ).contains(vlan) by {
            let i = choose|i: int|
                0 <= i < events.len() && (#[trigger] events[i].event) is BpduReceived
                    && events[i].event.vlan_number() == vlan;
            assert(more[i].event is BpduReceived);
        }
        assert(more[last].event == e.event);
    }
}

} // verus!
