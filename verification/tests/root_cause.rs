//! From a time line to its causes.

use stp_postmortem::analyzer::{classify_event, StpEvent, TimedEvent, Timestamp};
use stp_postmortem::root_cause::{
    build_action_plan, build_verdict, correlate, vlan_label, ChainRole, RootCause, RootCauseKind, RootCauseSeverity,
};
use stp_postmortem::time::{Interval, Moment};

fn at(sec: u32) -> Timestamp {
    Timestamp { sec, usec: 0 }
}

fn entry(event: StpEvent, sec: u32) -> TimedEvent {
    let severity = classify_event(&event);
    TimedEvent { ts: at(sec), event, severity }
}

fn flapping(sec: u32, change_count: usize, vlan_id: Option<u16>) -> TimedEvent {
    let window_ms = Interval { start: at(sec - 2), end: at(sec) };
    entry(StpEvent::RootFlapping { ts: at(sec), change_count, window_ms, vlan_id }, sec)
}

fn storm(sec: u32, tc_count: usize, vlan_id: Option<u16>) -> TimedEvent {
    let window_ms = Interval { start: at(sec - 1), end: at(sec) };
    entry(StpEvent::TcStorm { ts: at(sec), tc_count, window_ms, vlan_id }, sec)
}

fn changed(sec: u32, old: &str, new: &str, vlan_id: Option<u16>) -> TimedEvent {
    entry(
        StpEvent::RootChanged {
            ts: at(sec),
            old_root: old.to_string(),
            new_root: new.to_string(),
            new_root_mac: format!("mac of {}", new),
            vlan_id,
        },
        sec,
    )
}

fn change(sec: u32, tc_count: usize, vlan_id: Option<u16>) -> TimedEvent {
    entry(
        StpEvent::TopologyChange {
            ts: at(sec),
            sender_mac: "s".to_string(),
            bridge_id: "b".to_string(),
            vlan_id,
            tc_count,
        },
        sec,
    )
}

fn inferior(sec: u32, vlan_id: Option<u16>) -> TimedEvent {
    entry(
        StpEvent::InferiorBpdu {
            ts: at(sec),
            sender_mac: "s".to_string(),
            claimed_root: "c".to_string(),
            actual_root: "a".to_string(),
            vlan_id,
        },
        sec,
    )
}

fn quiet(sec: u32) -> TimedEvent {
    entry(
        StpEvent::PortStateChange {
            ts: at(sec),
            sender_mac: "s".to_string(),
            port_id: 1,
            old_state: "Unknown".to_string(),
            new_state: "Forwarding".to_string(),
            vlan_id: None,
        },
        sec,
    )
}

fn kinds(causes: &[RootCause]) -> Vec<RootCauseKind> {
    causes.iter().map(|c| c.kind).collect()
}

fn evidence(cause: &RootCause) -> Vec<(Timestamp, &str, &str)> {
    cause
        .evidence
        .iter()
        .map(|e| (e.ts, e.event_type.as_str(), e.description.as_str()))
        .collect()
}

#[test]
fn vlans_have_names() {
    assert_eq!(vlan_label(None), "native");
    assert_eq!(vlan_label(Some(0)), "VLAN 0");
    assert_eq!(vlan_label(Some(4095)), "VLAN 4095");
}

#[test]
fn causes_have_titles() {
    let titles = [
        (RootCauseKind::RootFlapping, "Root Bridge Flapping"),
        (RootCauseKind::TcStorm, "Topology Change Storm"),
        (RootCauseKind::RogueBridge, "Rogue Root Bridge"),
        (RootCauseKind::LoopDetected, "Loop Suspected"),
        (RootCauseKind::ConfigMismatch, "Root Bridge Change"),
        (RootCauseKind::Clean, "No Issues Detected"),
    ];
    for (kind, title) in titles {
        assert_eq!(kind.title(), title);
    }
}

#[test]
fn an_empty_time_line_is_clean() {
    let r = correlate(&[]);
    assert!(r.stable);
    assert_eq!(r.verdict, "STP topology stable. No anomalies detected.");
    assert_eq!(r.action_plan, vec!["No action required."]);
    assert_eq!(r.causes.len(), 1);
    let c = &r.causes[0];
    assert_eq!(c.kind, RootCauseKind::Clean);
    assert_eq!(c.severity, RootCauseSeverity::Info);
    assert_eq!(c.headline, "STP topology stable");
    assert_eq!(
        c.impact,
        "No anomalies detected. Root bridge consistent throughout capture."
    );
    assert_eq!(c.remediation, "No action required.");
    assert_eq!(c.confidence, 90);
    assert_eq!(
        c.confidence_reason,
        "Root bridge stable, no TC storms or flapping detected."
    );
    assert!(c.evidence.is_empty() && c.secondary_effects.is_empty());
    assert!(c.affected_vlans.is_empty() && c.causal_chain.is_empty());
    assert_eq!((c.first_seen, c.last_seen), (at(0), at(0)));
}

#[test]
fn single_topology_changes_are_clean_too() {
    let r = correlate(&[quiet(1), change(2, 1, None), quiet(100)]);
    assert_eq!(kinds(&r.causes), [RootCauseKind::Clean]);
    assert!(r.stable);
}

#[test]
fn flapping_is_explained() {
    let events = [
        changed(10, "A", "B", Some(5)),
        flapping(12, 3, Some(5)),
        quiet(13),
        flapping(40, 7, None),
        flapping(50, 4, Some(5)),
        quiet(1000),
    ];
    let r = correlate(&events);
    assert_eq!(kinds(&r.causes), [RootCauseKind::RootFlapping]);
    let c = &r.causes[0];
    assert_eq!(c.severity, RootCauseSeverity::Critical);
    assert_eq!(c.headline, "Root bridge flapping — 7 changes detected");
    assert_eq!(
        c.impact,
        "MAC tables flushed repeatedly. Broadcast storms possible. Network convergence delayed. \
         All traffic on affected VLANs disrupted."
    );
    assert_eq!(
        c.remediation,
        "Set explicit root bridge: `spanning-tree vlan <id> root primary` on intended root. \
         Enable Root Guard on access ports: `spanning-tree guard root`. Check for rogue switches."
    );
    assert_eq!(
        evidence(c),
        vec![
            (at(12), "RootFlapping", "VLAN 5: 3 root changes in 2000ms"),
            (at(40), "RootFlapping", "native: 7 root changes in 2000ms"),
            (at(50), "RootFlapping", "VLAN 5: 4 root changes in 2000ms"),
            (at(10), "RootChanged", "VLAN 5: A → B"),
        ]
    );
    assert_eq!(
        c.secondary_effects,
        vec![
            "Repeated MAC table flushes → temporary flooding",
            "STP re-convergence on every change (30s classic STP, 1-2s RSTP)",
            "Possible broadcast storm during convergence",
        ]
    );
    assert_eq!(c.affected_vlans, vec!["VLAN 5", "native"]);
    assert_eq!((c.first_seen, c.last_seen), (at(12), at(50)));
    assert_eq!(c.confidence, 95);
    assert_eq!(
        c.confidence_reason,
        "7 root changes observed directly in capture window."
    );
    let chain: Vec<(Moment, &str, &str, ChainRole)> = c
        .causal_chain
        .iter()
        .map(|s| (s.ts, s.event_type.as_str(), s.description.as_str(), s.role))
        .collect();
    assert_eq!(
        chain,
        vec![
            (
                Moment { ts: at(12), after_ms: 0 },
                "RootChanged",
                "Root bridge changes rapidly — new bridge announces lower Bridge ID",
                ChainRole::Cause
            ),
            (
                Moment { ts: at(12), after_ms: 500 },
                "TopologyChange",
                "Each root change triggers TC flood — all bridges flush MAC tables",
                ChainRole::Effect
            ),
            (
                Moment { ts: at(50), after_ms: 0 },
                "RootFlapping",
                "Instability continues — network convergence never completes",
                ChainRole::Effect
            ),
        ]
    );
    assert!(r.stable);
    assert_eq!(
        r.verdict,
        "1 critical issue(s): Root Bridge Flapping. \
         Topology may have stabilized by end of capture."
    );
    assert_eq!(
        r.action_plan,
        vec![
            "1. URGENT: Stabilize root bridge — `spanning-tree vlan <id> root primary` on \
             intended root. Enable Root Guard on all edge ports."
        ]
    );
}

#[test]
fn a_storm_is_explained() {
    let mut events: Vec<TimedEvent> = (1..=10).map(|n| change(10, n, Some(1))).collect();
    events.push(storm(11, 10, Some(1)));
    events.push(storm(30, 25, Some(2)));
    let r = correlate(&events);
    assert_eq!(kinds(&r.causes), [RootCauseKind::TcStorm]);
    let c = &r.causes[0];
    assert_eq!(c.headline, "TC storm — 25 topology changes detected");
    assert_eq!(
        c.impact,
        "Excessive TC flags cause all bridges to flush MAC tables on every TC. Results in \
         temporary unicast flooding across entire VLAN, bandwidth saturation, CPU spikes on \
         switches."
    );
    assert_eq!(
        c.remediation,
        "Enable BPDU Guard on access ports: `spanning-tree bpduguard enable`. Enable PortFast on \
         end-device ports: `spanning-tree portfast`. Check for flapping ports or loops."
    );
    assert_eq!(
        evidence(c),
        vec![
            (at(11), "TcStorm", "VLAN 1: 10 TC flags in 1000ms"),
            (at(30), "TcStorm", "VLAN 2: 25 TC flags in 1000ms"),
            (at(10), "TopologyChange", "VLAN 1: TC #1 from s"),
            (at(10), "TopologyChange", "VLAN 1: TC #2 from s"),
            (at(10), "TopologyChange", "VLAN 1: TC #3 from s"),
            (at(10), "TopologyChange", "VLAN 1: TC #4 from s"),
            (at(10), "TopologyChange", "VLAN 1: TC #5 from s"),
        ]
    );
    assert_eq!(
        c.secondary_effects,
        vec![
            "MAC table flush on every TC → unicast flooding",
            "CPU load spike on all bridges",
            "Bandwidth saturation from flooding",
        ]
    );
    assert_eq!(c.affected_vlans, vec!["VLAN 1", "VLAN 2"]);
    assert_eq!((c.first_seen, c.last_seen), (at(11), at(30)));
    assert_eq!(c.confidence, 90);
    assert_eq!(c.confidence_reason, "25 TC events observed in capture window.");
    assert!(c.causal_chain.is_empty());
    assert!(!r.stable);
    assert_eq!(
        r.verdict,
        "1 critical issue(s): Topology Change Storm. \
         Topology had NOT stabilized by end of capture."
    );
    assert_eq!(
        r.action_plan,
        vec![
            "2. URGENT: Enable PortFast + BPDU Guard on all access ports. Check for flapping \
             links. Investigate TC source bridge."
        ]
    );
}

#[test]
fn a_change_of_root_without_flapping_is_rogue() {
    let r = correlate(&[
        changed(10, "A", "B", Some(5)),
        changed(20, "B", "C", None),
        changed(21, "X", "Y", Some(5)),
        quiet(500),
    ]);
    assert_eq!(kinds(&r.causes), [RootCauseKind::RogueBridge]);
    let c = &r.causes[0];
    assert_eq!(c.severity, RootCauseSeverity::Critical);
    assert_eq!(
        c.headline,
        "Rogue root bridge — unexpected root takeover on 2 VLAN(s)"
    );
    assert_eq!(
        c.impact,
        "Traffic paths changed unexpectedly. New root may be a misconfigured access switch or \
         unauthorized device, causing suboptimal or broken routing."
    );
    assert_eq!(
        c.remediation,
        "Enable Root Guard on uplink ports: `spanning-tree guard root`. Verify intended root has \
         lowest Bridge ID. Check for unauthorized switches. Set `spanning-tree vlan <id> priority \
         4096` on intended root."
    );
    assert_eq!(
        evidence(c),
        vec![
            (at(10), "RootChanged", "VLAN 5: new root B (mac mac of B)"),
            (at(20), "RootChanged", "native: new root C (mac mac of C)"),
            (at(21), "RootChanged", "VLAN 5: new root Y (mac mac of Y)"),
        ]
    );
    assert_eq!(
        c.secondary_effects,
        vec![
            "Traffic paths changed to suboptimal routes",
            "Potential traffic blackhole during convergence",
        ]
    );
    assert_eq!(c.affected_vlans, vec!["VLAN 5", "native"]);
    assert_eq!((c.first_seen, c.last_seen, c.confidence), (at(10), at(21), 80));
    assert_eq!(
        c.confidence_reason,
        "Root changed to previously unknown bridge without prior instability."
    );
    let chain: Vec<(Moment, &str, &str, ChainRole)> = c
        .causal_chain
        .iter()
        .map(|s| (s.ts, s.event_type.as_str(), s.description.as_str(), s.role))
        .collect();
    assert_eq!(
        chain,
        vec![
            (
                Moment { ts: at(10), after_ms: 0 },
                "BridgeDiscovered",
                "New bridge connected to network with low Bridge ID",
                ChainRole::Cause
            ),
            (
                Moment { ts: at(10), after_ms: 100 },
                "RootChanged",
                "New bridge Y elected as Root — all traffic path changes",
                ChainRole::Effect
            ),
            (
                Moment { ts: at(10), after_ms: 1000 },
                "TopologyChange",
                "TC flood triggered — MAC tables flushed across all bridges",
                ChainRole::Effect
            ),
        ]
    );
    assert_eq!(
        r.verdict,
        "1 critical issue(s): Rogue Root Bridge. Topology may have stabilized by end of capture."
    );
    assert_eq!(
        r.action_plan,
        vec![
            "3. URGENT: Enable Root Guard on uplink ports. Identify and isolate unauthorized \
             bridge. Set correct STP priority on intended root.",
        ]
    );
}

#[test]
fn a_loop_is_suspected_beside_a_storm_only() {
    let r = correlate(&[inferior(5, Some(3)), quiet(6)]);
    assert_eq!(kinds(&r.causes), [RootCauseKind::Clean]);
    let r = correlate(&[inferior(5, Some(3)), storm(6, 11, None), inferior(7, None)]);
    assert_eq!(kinds(&r.causes), [RootCauseKind::TcStorm, RootCauseKind::LoopDetected]);
    let c = &r.causes[1];
    assert_eq!(c.severity, RootCauseSeverity::Critical);
    assert_eq!(c.headline, "Possible loop — inferior BPDUs with TC storm");
    assert_eq!(
        c.impact,
        "Inferior BPDUs combined with TC storm indicate a possible loop condition. Bridges \
         receiving BPDUs with stale root information may indicate a segment is not receiving \
         BPDUs properly."
    );
    assert_eq!(
        c.remediation,
        "Check for unidirectional links (SFP issues). Enable UDLD: `udld enable`. Check BPDU \
         filtering is not blocking legitimate BPDUs. Verify physical topology matches logical."
    );
    assert_eq!(
        evidence(c),
        vec![
            (at(5), "InferiorBpdu", "VLAN 3: s claims root c (actual: a)"),
            (at(7), "InferiorBpdu", "native: s claims root c (actual: a)"),
        ]
    );
    assert_eq!(
        c.secondary_effects,
        vec!["Broadcast storm if loop not blocked by STP", "MAC table instability"]
    );
    assert!(c.affected_vlans.is_empty() && c.causal_chain.is_empty());
    assert_eq!((c.first_seen, c.last_seen, c.confidence), (at(5), at(7), 70));
    assert_eq!(
        c.confidence_reason,
        "Inferior BPDUs co-occurring with TC storm — correlation suggests loop, but physical \
         verification needed."
    );
    assert_eq!(
        r.action_plan[1],
        "4. Check for unidirectional links. Enable UDLD. Verify BPDU propagation on all segments."
    );
    assert_eq!(
        r.verdict,
        "2 critical issue(s): Topology Change Storm, Loop Suspected. \
         Topology had NOT stabilized by end of capture."
    );
}

#[test]
fn flapping_and_storms_hide_lesser_causes() {
    let r = correlate(&[changed(1, "A", "B", None), flapping(3, 3, None), storm(4, 10, None)]);
    assert_eq!(kinds(&r.causes), [RootCauseKind::RootFlapping, RootCauseKind::TcStorm]);
    let r = correlate(&[changed(1, "A", "B", None), storm(4, 10, None)]);
    assert_eq!(kinds(&r.causes), [RootCauseKind::TcStorm, RootCauseKind::RogueBridge]);
}

#[test]
fn one_change_of_root_has_one_cause() {
    let r = correlate(&[changed(1, "8192/a", "4096/b", None)]);
    assert_eq!(kinds(&r.causes), [RootCauseKind::RogueBridge]);
    assert_eq!(r.action_plan.len(), 1);
}

#[test]
fn a_change_of_root_always_has_another_cause() {
    let change = || changed(1, "8192/a", "4096/b", None);
    for line in [
        vec![change()],
        vec![change(), change()],
        vec![change(), inferior(2, None)],
        vec![change(), storm(2, 10, None)],
        vec![change(), flapping(2, 3, None)],
        vec![change(), flapping(2, 3, None), storm(3, 10, None), inferior(4, None)],
    ] {
        let r = correlate(&line);
        assert!(!r.causes.is_empty());
        for cause in &r.causes {
            assert_ne!(cause.kind, RootCauseKind::ConfigMismatch);
            assert_eq!(cause.severity, RootCauseSeverity::Critical);
        }
    }
}

#[test]
fn the_worst_comes_first() {
    let r = correlate(&[changed(1, "A", "B", None), inferior(2, None), storm(3, 10, None)]);
    assert_eq!(
        kinds(&r.causes),
        [RootCauseKind::TcStorm, RootCauseKind::RogueBridge, RootCauseKind::LoopDetected]
    );
    for pair in r.causes.windows(2) {
        assert!(pair[0].severity >= pair[1].severity);
    }
    assert!(RootCauseSeverity::Info < RootCauseSeverity::Warning);
    assert!(RootCauseSeverity::Warning < RootCauseSeverity::Critical);
}

#[test]
fn warnings_have_a_verdict_and_a_plan_of_their_own() {
    let mut warning = correlate(&[]).causes.remove(0);
    warning.kind = RootCauseKind::ConfigMismatch;
    warning.severity = RootCauseSeverity::Warning;
    let causes = vec![warning];
    assert_eq!(
        build_verdict(&causes, true),
        "1 warning(s): Root Bridge Change. Topology stable."
    );
    assert_eq!(
        build_verdict(&causes, false),
        "1 warning(s): Root Bridge Change. Instability persisted."
    );
    assert_eq!(
        build_action_plan(&causes),
        vec![
            "5. Review root bridge priority configuration. Verify intended root has lowest Bridge \
             ID for all VLANs."
        ]
    );
}

#[test]
fn the_last_fifth_decides_on_stability() {
    // Four fifths of the way from 0 to 100.
    for (sec, stable) in [(0u32, true), (79, true), (80, false), (100, false)] {
        let mut events = vec![quiet(0), change(sec, 1, None), quiet(100)];
        events.sort_by_key(|e| e.ts.sec);
        assert_eq!(correlate(&events).stable, stable);
    }
    assert!(!correlate(&[change(7, 1, None)]).stable);
    assert!(correlate(&[quiet(7)]).stable);
}

#[test]
fn stability_is_judged_with_the_machines_rounding() {
    let stamp = |sec: u32, usec: u32| Timestamp { sec, usec };
    let seconds = |t: Timestamp| t.sec as f64 + t.usec as f64 / 1_000_000.0;
    let first = stamp(1_700_000_000, 100_001);
    let last = stamp(1_700_000_007, 300_002);
    let start = seconds(first) + (seconds(last) - seconds(first)) * 0.8;
    for usec in 860_000..860_010 {
        let ts = stamp(1_700_000_005, usec);
        let mut events = vec![quiet(0), change(0, 1, None), quiet(0)];
        events[0].ts = first;
        events[1].ts = ts;
        events[2].ts = last;
        assert_eq!(correlate(&events).stable, !(seconds(ts) >= start));
    }
}
