//! The analyser, BPDU by BPDU.

use stp_postmortem::analyzer::{
    classify_event, Analyzer, PortState, Severity, StpEvent, Timestamp,
};
use stp_postmortem::stp::{parse_bpdu, Bpdu, BpduFlags, BpduType, BridgeId};
use stp_postmortem::time::Interval;

const ROOT: [u8; 6] = [0, 0, 0, 0, 0, 1];
const OTHER: [u8; 6] = [0, 0, 0, 0, 0, 2];
const SENDER: [u8; 6] = [0x0a, 0, 0, 0, 0, 9];

fn at(sec: u32) -> Timestamp {
    Timestamp { sec, usec: 0 }
}

fn bpdu(root: [u8; 6], flags: u8, vlan_id: Option<u16>) -> Bpdu {
    Bpdu {
        bpdu_type: BpduType::RstBpdu,
        vlan_id,
        sender_mac: SENDER,
        flags: BpduFlags::from_byte(flags),
        root_id: BridgeId { priority: 4096, mac: root },
        root_path_cost: 4,
        bridge_id: BridgeId { priority: 0x8000, mac: SENDER },
        port_id: 0x8001,
        message_age: 0,
        max_age: 5120,
        hello_time: 512,
        forward_delay: 3840,
        is_rstp: true,
    }
}

fn notification(vlan_id: Option<u16>) -> Bpdu {
    Bpdu { bpdu_type: BpduType::TcnBpdu, is_rstp: false, ..bpdu(ROOT, 0, vlan_id) }
}

fn kinds(events: &[StpEvent]) -> Vec<&'static str> {
    events.iter().map(kind).collect()
}

fn kind(event: &StpEvent) -> &'static str {
    match event {
        StpEvent::BridgeDiscovered { .. } => "BridgeDiscovered",
        StpEvent::RootElected { .. } => "RootElected",
        StpEvent::RootChanged { .. } => "RootChanged",
        StpEvent::TopologyChange { .. } => "TopologyChange",
        StpEvent::TcnReceived { .. } => "TcnReceived",
        StpEvent::TcStorm { .. } => "TcStorm",
        StpEvent::PortRoleChange { .. } => "PortRoleChange",
        StpEvent::PortStateChange { .. } => "PortStateChange",
        StpEvent::InferiorBpdu { .. } => "InferiorBpdu",
        StpEvent::RootFlapping { .. } => "RootFlapping",
        StpEvent::BpduReceived { .. } => "BpduReceived",
    }
}

#[test]
fn the_first_bpdu_tells_everything() {
    let mut a = Analyzer::new();
    let events = a.process(&bpdu(ROOT, 0x3c, Some(10)), at(5));
    assert_eq!(
        kinds(&events),
        ["BpduReceived", "BridgeDiscovered", "RootElected", "PortStateChange"]
    );
    match &events[0] {
        StpEvent::BpduReceived {
            ts,
            sender_mac,
            root_id,
            root_cost,
            bridge_id,
            port_id,
            flags_tc,
            is_rstp,
            vlan_id,
        } => {
            assert_eq!(*ts, at(5));
            assert_eq!(sender_mac, "0a:00:00:00:00:09");
            assert_eq!(root_id, "4096/00:00:00:00:00:01");
            assert_eq!(*root_cost, 4);
            assert_eq!(bridge_id, "32768/0a:00:00:00:00:09");
            assert_eq!(*port_id, 0x8001);
            assert!(!flags_tc);
            assert!(is_rstp);
            assert_eq!(*vlan_id, Some(10));
        }
        _ => unreachable!(),
    }
    match &events[1] {
        StpEvent::BridgeDiscovered { bridge_id, bridge_mac, is_root, vlan_id, .. } => {
            assert_eq!(bridge_id, "32768/0a:00:00:00:00:09");
            assert_eq!(bridge_mac, "0a:00:00:00:00:09");
            assert!(!is_root);
            assert_eq!(*vlan_id, Some(10));
        }
        _ => unreachable!(),
    }
    match &events[2] {
        StpEvent::RootElected { root_id, root_mac, root_priority, .. } => {
            assert_eq!(root_id, "4096/00:00:00:00:00:01");
            assert_eq!(root_mac, "00:00:00:00:00:01");
            assert_eq!(*root_priority, 4096);
        }
        _ => unreachable!(),
    }
    match &events[3] {
        StpEvent::PortStateChange { port_id, old_state, new_state, .. } => {
            assert_eq!(*port_id, 0x8001);
            assert_eq!(old_state, "Unknown");
            assert_eq!(new_state, "Forwarding");
        }
        _ => unreachable!(),
    }
}

#[test]
fn a_repeated_bpdu_is_quiet() {
    let mut a = Analyzer::new();
    a.process(&bpdu(ROOT, 0x3c, None), at(1));
    for sec in 2..20 {
        assert_eq!(kinds(&a.process(&bpdu(ROOT, 0x3c, None), at(sec))), ["BpduReceived"]);
    }
}

#[test]
fn a_notification_leaves_no_trace() {
    let mut a = Analyzer::new();
    let events = a.process(&notification(Some(3)), at(1));
    match &events[0] {
        StpEvent::TcnReceived { ts, sender_mac, vlan_id } => {
            assert_eq!(*ts, at(1));
            assert_eq!(sender_mac, "0a:00:00:00:00:09");
            assert_eq!(*vlan_id, Some(3));
        }
        _ => unreachable!(),
    }
    assert_eq!(events.len(), 1);
    let t = a.get_topology();
    assert!(t.bridges.is_empty() && t.roots.is_empty());
    assert_eq!(a.process(&bpdu(ROOT, 0x3c, Some(3)), at(2)).len(), 4);
}

#[test]
fn another_root_is_a_change() {
    let mut a = Analyzer::new();
    a.process(&bpdu(ROOT, 0x3c, None), at(1));
    let events = a.process(&bpdu(OTHER, 0x3c, None), at(2));
    assert_eq!(kinds(&events), ["BpduReceived", "RootChanged", "InferiorBpdu"]);
    match &events[1] {
        StpEvent::RootChanged { old_root, new_root, new_root_mac, .. } => {
            assert_eq!(old_root, "4096/00:00:00:00:00:01");
            assert_eq!(new_root, "4096/00:00:00:00:00:02");
            assert_eq!(new_root_mac, "00:00:00:00:00:02");
        }
        _ => unreachable!(),
    }
    // The extension of the identifier is no part of the comparison.
    let mut same = bpdu(OTHER, 0x3c, None);
    same.root_id.priority = 0x1123;
    assert_eq!(kinds(&a.process(&same, at(3))), ["BpduReceived"]);
}

#[test]
fn flapping_is_told_with_the_third_change() {
    let mut a = Analyzer::new();
    a.process(&bpdu(ROOT, 0x3c, Some(2)), at(100));
    let mut told = Vec::new();
    for i in 0..6u32 {
        let root = if i % 2 == 0 { OTHER } else { ROOT };
        let events = a.process(&bpdu(root, 0x3c, Some(2)), at(101 + i));
        assert_eq!(kind(&events[1]), "RootChanged");
        for e in events {
            if let StpEvent::RootFlapping { change_count, window_ms, vlan_id, .. } = e {
                told.push((i, change_count, window_ms, vlan_id));
            }
        }
    }
    assert_eq!(told, vec![(2, 3, Interval { start: at(101), end: at(103) }, Some(2))]);
}

#[test]
fn slow_changes_are_no_flapping() {
    let mut a = Analyzer::new();
    a.process(&bpdu(ROOT, 0x3c, None), at(0));
    for i in 0..10u32 {
        let root = if i % 2 == 0 { OTHER } else { ROOT };
        let events = a.process(&bpdu(root, 0x3c, None), at(16 * (i + 1)));
        assert!(!kinds(&events).contains(&"RootFlapping"));
        assert!(kinds(&events).contains(&"RootChanged"));
    }
}

#[test]
fn a_window_of_exactly_thirty_seconds_still_counts() {
    for (third, flapping) in [(40u32, true), (41, false)] {
        let mut a = Analyzer::new();
        a.process(&bpdu(ROOT, 0x3c, None), at(1));
        a.process(&bpdu(OTHER, 0x3c, None), at(10));
        a.process(&bpdu(ROOT, 0x3c, None), at(11));
        let events = a.process(&bpdu(OTHER, 0x3c, None), at(third));
        assert_eq!(kinds(&events).contains(&"RootFlapping"), flapping);
    }
}

#[test]
fn a_storm_is_told_with_the_tenth_change() {
    let mut a = Analyzer::new();
    let mut told = Vec::new();
    for i in 0..25u32 {
        let ts = Timestamp { sec: 50, usec: i * 1000 };
        for e in a.process(&bpdu(ROOT, 0x3d, None), ts) {
            match e {
                StpEvent::TopologyChange { tc_count, sender_mac, bridge_id, .. } => {
                    assert_eq!(tc_count as u32, i + 1);
                    assert_eq!(sender_mac, "0a:00:00:00:00:09");
                    assert_eq!(bridge_id, "32768/0a:00:00:00:00:09");
                }
                StpEvent::TcStorm { tc_count, window_ms, vlan_id, .. } => {
                    told.push((i, tc_count, window_ms, vlan_id));
                }
                _ => {}
            }
        }
    }
    let window = Interval {
        start: Timestamp { sec: 50, usec: 0 },
        end: Timestamp { sec: 50, usec: 9000 },
    };
    assert_eq!(told, vec![(9, 10, window, None)]);
}

#[test]
fn a_new_window_can_have_a_new_storm() {
    let mut a = Analyzer::new();
    let mut storms = 0;
    for round in 0..3u32 {
        for i in 0..12u32 {
            let ts = Timestamp { sec: 100 * round, usec: i };
            let events = a.process(&bpdu(ROOT, 0x3d, None), ts);
            storms += kinds(&events).iter().filter(|k| **k == "TcStorm").count();
        }
    }
    assert_eq!(storms, 3);
}

#[test]
fn every_window_has_its_storm_and_its_flapping() {
    let mut a = Analyzer::new();
    a.process(&bpdu(ROOT, 0x3c, Some(5)), at(0));
    for round in 0..4u32 {
        for i in 0..12u32 {
            let root = if i % 2 == 0 { OTHER } else { ROOT };
            // Thirty-one seconds from window to window.
            let ts = Timestamp { sec: 1 + 31 * round, usec: i };
            let told = a.process(&bpdu(root, 0x3d, Some(5)), ts);
            assert_eq!(kinds(&told).contains(&"TcStorm"), i == 9);
            assert_eq!(kinds(&told).contains(&"RootFlapping"), i == 2);
        }
    }
}

#[test]
fn a_window_of_a_marked_second_is_quiet() {
    let mut a = Analyzer::new();
    for i in 0..12u32 {
        a.process(&bpdu(ROOT, 0x3d, None), Timestamp { sec: 7, usec: i });
    }
    // Microseconds that make up more than the window: a new one, in the same second.
    for i in 0..12u32 {
        let ts = Timestamp { sec: 7, usec: 11_000_000 + i };
        let told = a.process(&bpdu(ROOT, 0x3d, None), ts);
        assert!(!kinds(&told).contains(&"TcStorm"));
    }
}

#[test]
fn a_late_change_opens_a_new_window() {
    let mut a = Analyzer::new();
    for i in 0..9u32 {
        a.process(&bpdu(ROOT, 0x3d, None), Timestamp { sec: 1, usec: i });
    }
    let events = a.process(&bpdu(ROOT, 0x3d, None), at(30));
    match &events[1] {
        StpEvent::TopologyChange { tc_count, .. } => assert_eq!(*tc_count, 1),
        _ => unreachable!(),
    }
    assert_eq!(events.len(), 2);
}

#[test]
fn vlans_do_not_mix() {
    let mut a = Analyzer::new();
    for v in 0..20u16 {
        let events = a.process(&bpdu(ROOT, 0x3d, Some(v)), at(1));
        assert_eq!(
            kinds(&events),
            [
                "BpduReceived",
                "BridgeDiscovered",
                "RootElected",
                "TopologyChange",
                "PortStateChange"
            ]
        );
    }
    let t = a.get_topology();
    assert_eq!((t.bridges.len(), t.roots.len()), (20, 20));
}

#[test]
fn an_unknown_vlan_is_number_zero() {
    let mut a = Analyzer::new();
    a.process(&bpdu(ROOT, 0x3c, None), at(1));
    assert_eq!(kinds(&a.process(&bpdu(ROOT, 0x3c, Some(0)), at(2))), ["BpduReceived"]);
    let t = a.get_topology();
    assert_eq!(t.roots.len(), 1);
    assert_eq!(t.roots[0].vlan_id, None);
}

#[test]
fn roles_and_states_are_followed() {
    let mut a = Analyzer::new();
    a.process(&bpdu(ROOT, 0x0c, None), at(1));
    let events = a.process(&bpdu(ROOT, 0x18, None), at(2));
    assert_eq!(kinds(&events), ["BpduReceived", "PortRoleChange", "PortStateChange"]);
    match &events[1] {
        StpEvent::PortRoleChange { port_id, old_role, new_role, .. } => {
            assert_eq!(*port_id, 0x8001);
            assert_eq!((old_role.as_str(), new_role.as_str()), ("Designated", "Root"));
        }
        _ => unreachable!(),
    }
    match &events[2] {
        StpEvent::PortStateChange { old_state, new_state, .. } => {
            assert_eq!((old_state.as_str(), new_state.as_str()), ("Discarding", "Learning"));
        }
        _ => unreachable!(),
    }
    assert_eq!(PortState::Discarding.as_str(), "Discarding");
    assert_eq!(PortState::Learning.as_str(), "Learning");
    assert_eq!(PortState::Forwarding.as_str(), "Forwarding");
}

fn read(priority: u8) -> Bpdu {
    let mut data = vec![0, 0, 2, 2, 0x3c, priority, 0];
    data.extend_from_slice(&[0, 0x11, 0x22, 0x33, 0x44, 1]);
    data.extend_from_slice(&[0, 0, 0, 0, 0x20, 0]);
    data.extend_from_slice(&[0, 0x11, 0x22, 0x33, 0x44, 2, 0x80, 1]);
    data.extend_from_slice(&[0; 8]);
    parse_bpdu(&data, [0, 0x11, 0x22, 0x33, 0x44, 2], None).unwrap()
}

#[test]
fn a_claim_to_a_worse_root_is_inferior() {
    let mut a = Analyzer::new();
    a.process(&read(0x10), at(0));
    let events = a.process(&read(0x30), at(1));
    assert_eq!(kinds(&events), ["BpduReceived", "RootChanged", "InferiorBpdu"]);
    match &events[2] {
        StpEvent::InferiorBpdu { ts, sender_mac, claimed_root, actual_root, vlan_id } => {
            assert_eq!(*ts, at(1));
            assert_eq!(sender_mac, "00:11:22:33:44:02");
            assert_eq!(claimed_root, "12288/00:11:22:33:44:01");
            assert_eq!(actual_root, "4096/00:11:22:33:44:01");
            assert_eq!(*vlan_id, None);
        }
        _ => unreachable!(),
    }
    assert_eq!(classify_event(&events[2]), Severity::Warning);
}

#[test]
fn a_claim_to_a_better_root_is_not_inferior() {
    let mut a = Analyzer::new();
    assert!(!kinds(&a.process(&read(0x30), at(0))).contains(&"InferiorBpdu"));
    assert_eq!(kinds(&a.process(&read(0x10), at(1))), ["BpduReceived", "RootChanged"]);
    assert_eq!(kinds(&a.process(&read(0x10), at(2))), ["BpduReceived"]);
    // The address decides where the priority does not.
    let mut by_address = Analyzer::new();
    by_address.process(&bpdu(OTHER, 0x3c, None), at(0));
    assert_eq!(
        kinds(&by_address.process(&bpdu(ROOT, 0x3c, None), at(1))),
        ["BpduReceived", "RootChanged"]
    );
    assert_eq!(
        kinds(&by_address.process(&bpdu(OTHER, 0x3c, None), at(2))),
        ["BpduReceived", "RootChanged", "InferiorBpdu"]
    );
}

#[test]
fn a_vlan_tells_the_same_whatever_happens_in_others() {
    let mut alone = Analyzer::new();
    let mut among_others = Analyzer::new();
    for i in 0..40u32 {
        let root = if i % 3 == 0 { OTHER } else { ROOT };
        let ts = Timestamp { sec: i / 2, usec: i };
        for v in [1u16, 7, 4000] {
            among_others.process(&bpdu(if i % 2 == 0 { ROOT } else { OTHER }, 0x3d, Some(v)), ts);
        }
        among_others.process(&notification(Some(1)), ts);
        let expected = alone.process(&bpdu(root, 0x3d, Some(9)), ts);
        let told = among_others.process(&bpdu(root, 0x3d, Some(9)), ts);
        assert_eq!(format!("{:?}", told), format!("{:?}", expected));
    }
}

#[test]
fn the_topology_lists_bridges_ports_and_roots() {
    let mut a = Analyzer::new();
    let mut second_port = bpdu(ROOT, 0x3c, Some(7));
    second_port.port_id = 0x8002;
    let mut other_bridge = bpdu(ROOT, 0x3c, Some(7));
    other_bridge.sender_mac = OTHER;
    other_bridge.bridge_id = BridgeId { priority: 4096, mac: OTHER };
    a.process(&bpdu(ROOT, 0x3c, Some(7)), at(1));
    a.process(&second_port, at(2));
    a.process(&bpdu(ROOT, 0x3c, Some(7)), at(3));
    a.process(&other_bridge, at(4));
    let t = a.get_topology();
    let mut bridges: Vec<(String, String, usize)> = t
        .bridges
        .into_iter()
        .map(|b| (b.bridge_id, b.bridge_mac, b.port_count))
        .collect();
    bridges.sort();
    assert_eq!(
        bridges,
        vec![
            ("32768/0a:00:00:00:00:09".to_string(), "0a:00:00:00:00:09".to_string(), 2),
            ("4096/00:00:00:00:00:02".to_string(), "00:00:00:00:00:02".to_string(), 1),
        ]
    );
    assert_eq!(t.roots.len(), 1);
    assert_eq!(t.roots[0].vlan_id, Some(7));
    assert_eq!(t.roots[0].root_id, "4096/00:00:00:00:00:01");
}

#[test]
fn the_root_is_that_of_the_last_bpdu() {
    let mut a = Analyzer::new();
    a.process(&bpdu(ROOT, 0x3c, Some(7)), at(1));
    a.process(&bpdu(OTHER, 0x3c, Some(7)), at(2));
    a.process(&bpdu(ROOT, 0x3c, Some(8)), at(3));
    a.process(&notification(Some(7)), at(4));
    for root in a.get_topology().roots {
        let expected = if root.vlan_id == Some(7) {
            "4096/00:00:00:00:00:02"
        } else {
            "4096/00:00:00:00:00:01"
        };
        assert_eq!(root.root_id, expected);
    }
}

#[test]
fn nothing_is_open_at_the_end() {
    let mut a = Analyzer::new();
    a.process(&bpdu(ROOT, 0x3d, None), at(1));
    assert!(a.finalize(at(2)).is_empty());
}

#[test]
fn each_kind_of_event_has_its_severity() {
    let ts = at(0);
    let window_ms = Interval { start: ts, end: ts };
    let s = String::new;
    let flapping = StpEvent::RootFlapping { ts, change_count: 3, window_ms, vlan_id: None };
    assert_eq!(classify_event(&flapping), Severity::Critical);
    let storm = StpEvent::TcStorm { ts, tc_count: 10, window_ms, vlan_id: None };
    assert_eq!(classify_event(&storm), Severity::Critical);
    let inferior = StpEvent::InferiorBpdu {
        ts,
        sender_mac: s(),
        claimed_root: s(),
        actual_root: s(),
        vlan_id: None,
    };
    assert_eq!(classify_event(&inferior), Severity::Warning);
    let changed = StpEvent::RootChanged {
        ts,
        old_root: s(),
        new_root: s(),
        new_root_mac: s(),
        vlan_id: None,
    };
    assert_eq!(classify_event(&changed), Severity::Warning);
    let tcn = StpEvent::TcnReceived { ts, sender_mac: s(), vlan_id: None };
    assert_eq!(classify_event(&tcn), Severity::Warning);
    let change = StpEvent::TopologyChange {
        ts,
        sender_mac: s(),
        bridge_id: s(),
        vlan_id: None,
        tc_count: 1,
    };
    assert_eq!(classify_event(&change), Severity::Warning);
    let mut a = Analyzer::new();
    for e in a.process(&bpdu(ROOT, 0x3c, None), ts) {
        assert_eq!(classify_event(&e), Severity::Info);
    }
    let role = StpEvent::PortRoleChange {
        ts,
        sender_mac: s(),
        port_id: 1,
        old_role: s(),
        new_role: s(),
        vlan_id: None,
    };
    assert_eq!(classify_event(&role), Severity::Info);
}
