//! From the bytes of a capture to the report.

use stp_postmortem::analyzer::{Analyzer, Severity, StpEvent, Timestamp};
use stp_postmortem::net::extract_bpdu;
use stp_postmortem::report::examine;
use stp_postmortem::root_cause::RootCauseKind;
use stp_postmortem::stp::parse_bpdu;
use stp_postmortem::{analyze_pcap, FullReport};

const ROOT_A: [u8; 6] = [0, 0, 0, 0, 0, 0xa];
const ROOT_B: [u8; 6] = [0, 0, 0, 0, 0, 0xb];

fn bpdu(root: [u8; 6], sender: [u8; 6], flags: u8) -> Vec<u8> {
    let mut b = vec![0, 0, 2, 2, flags, 0x10, 0x00];
    b.extend_from_slice(&root);
    b.extend_from_slice(&[0, 0, 0, 4, 0x80, 0x00]);
    b.extend_from_slice(&sender);
    b.extend_from_slice(&[0x80, 0x01, 1, 0, 20, 0, 2, 0, 15, 0, 0]);
    b
}

fn frame(sender: [u8; 6], vlan: Option<u16>, payload: &[u8]) -> Vec<u8> {
    let mut f = vec![0x01, 0x80, 0xc2, 0x00, 0x00, 0x00];
    f.extend_from_slice(&sender);
    if let Some(v) = vlan {
        f.extend_from_slice(&[0x81, 0x00]);
        f.extend_from_slice(&v.to_be_bytes());
    }
    f.extend_from_slice(&[0x00, 0x27, 0x42, 0x42, 0x03]);
    f.extend_from_slice(payload);
    f
}

type Packet = (u32, u32, Vec<u8>);

fn sender(n: u8) -> [u8; 6] {
    [2, 0, 0, 0, 0, n]
}

fn pcap(packets: &[Packet], big: bool) -> Vec<u8> {
    let n32 = |n: u32| if big { n.to_be_bytes() } else { n.to_le_bytes() };
    let n16 = |n: u16| if big { n.to_be_bytes() } else { n.to_le_bytes() };
    let mut f = Vec::new();
    f.extend_from_slice(&n32(0xa1b2c3d4));
    f.extend_from_slice(&n16(2));
    f.extend_from_slice(&n16(4));
    for n in [0, 0, 65_535, 1] {
        f.extend_from_slice(&n32(n));
    }
    for (sec, usec, data) in packets {
        for n in [*sec, *usec, data.len() as u32, data.len() as u32] {
            f.extend_from_slice(&n32(n));
        }
        f.extend_from_slice(data);
    }
    f
}

fn pcapng(packets: &[Packet], resol: Option<u8>, big: bool) -> Vec<u8> {
    let n32 = |n: u32| if big { n.to_be_bytes() } else { n.to_le_bytes() };
    let n16 = |n: u16| if big { n.to_be_bytes() } else { n.to_le_bytes() };
    let mut f = Vec::new();
    for n in [0x0A0D0D0Au32, 28, 0x1A2B3C4D, 1, 0, 0, 28] {
        f.extend_from_slice(&n32(n));
    }
    let mut options = Vec::new();
    if let Some(r) = resol {
        options.extend_from_slice(&n16(9));
        options.extend_from_slice(&n16(1));
        options.extend_from_slice(&[r, 0, 0, 0]);
    }
    let len = 20 + options.len() as u32;
    f.extend_from_slice(&n32(1));
    f.extend_from_slice(&n32(len));
    f.extend_from_slice(&n16(1));
    f.extend_from_slice(&n16(0));
    f.extend_from_slice(&n32(65_535));
    f.extend_from_slice(&options);
    f.extend_from_slice(&n32(len));
    for (sec, usec, data) in packets {
        let ticks = *sec as u64 * 1_000_000 + *usec as u64;
        let padding = (4 - data.len() % 4) % 4;
        let len = (32 + data.len() + padding) as u32;
        let size = data.len() as u32;
        for n in [6, len, 0, (ticks >> 32) as u32, ticks as u32, size, size] {
            f.extend_from_slice(&n32(n));
        }
        f.extend_from_slice(data);
        f.extend(vec![0; padding]);
        f.extend_from_slice(&n32(len));
    }
    f
}

/// Twelve topology changes and a change of root in VLAN 10, and a quiet VLAN 20.
fn troubled() -> Vec<Packet> {
    let mut packets = vec![(99, 500_000, vec![0xff; 60])];
    for i in 0..12u32 {
        packets.push((100, i * 1000, frame(sender(1), Some(10), &bpdu(ROOT_A, sender(1), 0x3d))));
    }
    packets.push((101, 0, frame(sender(2), Some(10), &bpdu(ROOT_B, sender(2), 0x3c))));
    packets.push((101, 1, frame(sender(2), Some(20), &bpdu(ROOT_B, sender(2), 0x3c))));
    packets.push((101, 2, frame(sender(3), Some(20), &[0, 0, 0, 0x80])));
    packets.push((200, 250_000, frame(sender(2), Some(20), &bpdu(ROOT_B, sender(2), 0x3c))));
    packets
}

fn outline(r: &FullReport) -> String {
    format!("{:?} {:?} {:?} {:?}", r.events, r.summary, r.root_cause, r.duration_sec)
}

#[test]
fn a_troubled_network_is_explained() {
    let r = analyze_pcap(&pcap(&troubled(), false)).unwrap();
    assert_eq!((r.total_packets, r.stp_packets), (17, 16));
    assert_eq!(f64::from_bits(r.duration_sec.to_bits()), 100.75);
    let s = &r.summary;
    assert_eq!((s.bridges_seen, s.vlans_seen), (2, 2));
    assert_eq!((s.root_changes, s.tc_events, s.anomalies), (1, 13, 16));
    assert_eq!((s.tc_storms, s.root_flaps, s.inferior_bpdus), (1, 0, 1));
    let kinds: Vec<RootCauseKind> = r.root_cause.causes.iter().map(|c| c.kind).collect();
    assert_eq!(
        kinds,
        [RootCauseKind::TcStorm, RootCauseKind::RogueBridge, RootCauseKind::LoopDetected]
    );
    assert!(r.root_cause.stable);
    assert_eq!(
        r.root_cause.verdict,
        "3 critical issue(s): Topology Change Storm, Rogue Root Bridge, Loop Suspected. \
         Topology may have stabilized by end of capture."
    );
    assert_eq!(
        r.root_cause.causes[0].evidence[0].description,
        "VLAN 10: 10 TC flags in 9ms"
    );
    assert_eq!(
        r.root_cause.causes[1].evidence[0].description,
        "VLAN 10: new root 4096/00:00:00:00:00:0b (mac 00:00:00:00:00:0b)"
    );
    assert_eq!(
        r.root_cause.causes[2].evidence[0].description,
        "VLAN 10: 02:00:00:00:00:02 claims root 4096/00:00:00:00:00:0b \
         (actual: 4096/00:00:00:00:00:0a)"
    );
    // Two bridges in VLAN 10, one of them in VLAN 20 too.
    assert_eq!((r.topology.bridges.len(), r.topology.roots.len()), (3, 2));
}

#[test]
fn anomalies_add_up() {
    let s = analyze_pcap(&pcap(&troubled(), false)).unwrap().summary;
    assert_eq!(
        s.anomalies,
        s.root_changes + s.tc_events + s.tc_storms + s.root_flaps + s.inferior_bpdus
    );
}

#[test]
fn events_carry_the_time_and_the_severity_of_their_kind() {
    let r = analyze_pcap(&pcap(&troubled(), true)).unwrap();
    assert_eq!(r.events[0].ts, Timestamp { sec: 100, usec: 0 });
    assert!(matches!(r.events[0].event, StpEvent::BpduReceived { .. }));
    assert_eq!(r.events[0].severity, Severity::Info);
    for e in &r.events {
        let expected = match e.event {
            StpEvent::TcStorm { .. } => Severity::Critical,
            StpEvent::TopologyChange { .. }
            | StpEvent::RootChanged { .. }
            | StpEvent::InferiorBpdu { .. }
            | StpEvent::TcnReceived { .. } => Severity::Warning,
            _ => Severity::Info,
        };
        assert_eq!(e.severity, expected);
    }
}

#[test]
fn formats_and_byte_orders_agree() {
    let packets = troubled();
    let expected = outline(&examine(&packets));
    assert_eq!(outline(&analyze_pcap(&pcap(&packets, false)).unwrap()), expected);
    assert_eq!(outline(&analyze_pcap(&pcap(&packets, true)).unwrap()), expected);
    for big in [false, true] {
        for resol in [None, Some(6)] {
            let report = analyze_pcap(&pcapng(&packets, resol, big)).unwrap();
            assert_eq!(outline(&report), expected);
        }
    }
}

#[test]
fn the_time_line_begins_with_that_of_the_first_packets() {
    let packets = troubled();
    let all: Vec<String> = examine(&packets).events.iter().map(|e| format!("{:?}", e)).collect();
    for n in 0..packets.len() {
        let few = examine(&packets[..n].to_vec());
        for (i, e) in few.events.iter().enumerate() {
            assert_eq!(format!("{:?}", e), all[i]);
        }
    }
}

#[test]
fn a_capture_without_bpdus_is_clean() {
    for packets in [vec![], vec![(7, 7, vec![1, 2, 3])]] {
        let r = analyze_pcap(&pcap(&packets, false)).unwrap();
        assert_eq!((r.total_packets, r.stp_packets), (packets.len(), 0));
        assert_eq!(r.duration_sec.to_bits(), 0);
        assert!(r.events.is_empty());
        assert_eq!(r.root_cause.causes.len(), 1);
        assert_eq!(r.root_cause.causes[0].kind, RootCauseKind::Clean);
        assert!(r.root_cause.stable);
        assert_eq!(r.root_cause.verdict, "STP topology stable. No anomalies detected.");
        assert!(r.topology.bridges.is_empty() && r.topology.roots.is_empty());
    }
}

#[test]
fn one_bridge_in_two_vlans_is_seen_once() {
    let r = examine(&vec![
        (1, 0, frame(sender(1), None, &bpdu(ROOT_A, sender(1), 0x3c))),
        (2, 0, frame(sender(1), Some(5), &bpdu(ROOT_A, sender(1), 0x3c))),
    ]);
    assert_eq!((r.summary.bridges_seen, r.summary.vlans_seen), (1, 2));
    assert_eq!(r.topology.bridges.len(), 2);
    let mut vlans: Vec<Option<u16>> = r.topology.roots.iter().map(|x| x.vlan_id).collect();
    vlans.sort();
    assert_eq!(vlans, vec![None, Some(5)]);
}

#[test]
fn the_duration_is_the_machines_difference() {
    let r = examine(&vec![(1_700_000_000, 123_456, vec![]), (1_700_000_009, 7, vec![])]);
    let expected = (1_700_000_009.0 + 7.0 / 1e6) - (1_700_000_000.0 + 123_456.0 / 1e6f64);
    assert_eq!(r.duration_sec.to_bits(), expected.to_bits());
    // A capture that goes back in time has a negative duration.
    let r = examine(&vec![(9, 0, vec![]), (5, 500_000, vec![])]);
    assert_eq!(f64::from_bits(r.duration_sec.to_bits()), -3.5);
}

#[test]
fn files_that_cannot_be_read_are_named() {
    assert_eq!(
        analyze_pcap(&[]).unwrap_err(),
        "Failed to parse PCAP header: Error(Error { input: [], code: Eof })"
    );
    assert_eq!(
        analyze_pcap(&[0x0a, 0x0d, 0x0d, 0x0a, 0, 0]).unwrap_err(),
        "File too short for PCAPng"
    );
    let mut f = pcapng(&[], None, false);
    f[8] = 0;
    assert_eq!(analyze_pcap(&f).unwrap_err(), "Invalid BOM: 0x1a2b3c00");
    let mut f = pcap(&[], false);
    f[20] = 101;
    assert_eq!(
        analyze_pcap(&f).unwrap_err(),
        "Unsupported link type: 101 (only Ethernet/1 supported)"
    );
}

#[test]
fn three_changes_of_root_are_flapping() {
    let mut packets = Vec::new();
    for i in 0..4u32 {
        let root = if i % 2 == 0 { ROOT_A } else { ROOT_B };
        packets.push((10 + i, 0, frame(sender(1), None, &bpdu(root, sender(1), 0x3c))));
    }
    let r = examine(&packets);
    assert_eq!((r.summary.root_changes, r.summary.root_flaps), (3, 1));
    let kinds: Vec<RootCauseKind> = r.root_cause.causes.iter().map(|c| c.kind).collect();
    assert_eq!(kinds, [RootCauseKind::RootFlapping]);
    assert_eq!(
        r.root_cause.causes[0].evidence[0].description,
        "native: 3 root changes in 2000ms"
    );
    assert!(!r.root_cause.stable);
}

fn number(r: &FullReport, pick: fn(&StpEvent) -> bool) -> usize {
    r.events.iter().filter(|e| pick(&e.event)).count()
}

#[test]
fn each_bridge_is_discovered_once() {
    let r = examine(&troubled());
    let discovered = number(&r, |e| matches!(e, StpEvent::BridgeDiscovered { .. }));
    assert_eq!(discovered, r.topology.bridges.len());
    let elected = number(&r, |e| matches!(e, StpEvent::RootElected { .. }));
    assert_eq!(elected, r.topology.roots.len());
    assert_eq!(r.summary.vlans_seen, r.topology.roots.len());
}

#[test]
fn every_bpdu_is_told_of_once() {
    let r = examine(&troubled());
    let received = number(&r, |e| matches!(e, StpEvent::BpduReceived { .. }));
    let notified = number(&r, |e| matches!(e, StpEvent::TcnReceived { .. }));
    assert_eq!((received, notified), (15, 1));
    assert_eq!(received + notified, r.stp_packets);
    let changes = number(&r, |e| matches!(e, StpEvent::TopologyChange { .. }));
    assert!(10 * r.summary.tc_storms <= changes);
    assert!(3 * r.summary.root_flaps <= r.summary.root_changes);
    assert!(r.summary.inferior_bpdus <= r.summary.root_changes);
}

#[test]
fn the_analyser_tells_the_same_bpdu_by_bpdu() {
    let packets = troubled();
    let mut analyzer = Analyzer::new();
    let mut told = Vec::new();
    for (sec, usec, data) in &packets {
        if let Some((info, payload)) = extract_bpdu(data) {
            if let Some(b) = parse_bpdu(payload, info.src_mac, info.vlan_id) {
                told.extend(analyzer.process(&b, Timestamp { sec: *sec, usec: *usec }));
            }
        }
    }
    let events: Vec<StpEvent> = examine(&packets).events.into_iter().map(|e| e.event).collect();
    assert_eq!(format!("{:?}", events), format!("{:?}", told));
}

#[test]
fn causes_are_backed_by_evidence() {
    let r = examine(&troubled());
    for cause in &r.root_cause.causes {
        assert_eq!(cause.evidence[0].ts, cause.first_seen);
    }
    assert_eq!(r.root_cause.action_plan.len(), r.root_cause.causes.len());
}
