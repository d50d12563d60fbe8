//! Frames and what they carry.

use stp_postmortem::net::{extract_bpdu, mac_str, EtherFrame, FrameKind, PVST_MCAST, STP_MCAST};

const SRC: [u8; 6] = [0x00, 0x11, 0x22, 0x33, 0x44, 0x55];

fn frame(dst: [u8; 6], middle: &[u8], payload: &[u8]) -> Vec<u8> {
    let mut f = Vec::new();
    f.extend_from_slice(&dst);
    f.extend_from_slice(&SRC);
    f.extend_from_slice(middle);
    f.extend_from_slice(payload);
    f
}

#[test]
fn a_plain_frame_gives_its_payload() {
    let f = frame(STP_MCAST, &[0x00, 0x26, 0x42, 0x42, 0x03], &[1, 2, 3]);
    let (info, payload) = extract_bpdu(&f).unwrap();
    assert_eq!(payload, &[1, 2, 3]);
    assert_eq!(info.src_mac, SRC);
    assert_eq!(info.dst_mac, STP_MCAST);
    assert_eq!(info.vlan_id, None);
    assert_eq!(info.kind, FrameKind::Stp);
    assert_eq!(info.src_mac_str(), "00:11:22:33:44:55");
    assert_eq!(info.dst_mac_str(), "01:80:c2:00:00:00");
}

#[test]
fn a_tagged_frame_names_its_vlan() {
    let tag = [0x81, 0x00, 0xe0, 0x0a, 0x00, 0x32, 0xaa, 0xaa, 0x03, 0, 0, 0x0c, 0x01, 0x0b];
    let f = frame(PVST_MCAST, &tag, &[9, 8]);
    let (info, payload) = extract_bpdu(&f).unwrap();
    assert_eq!(payload, &[9, 8]);
    assert_eq!(info.vlan_id, Some(10));
    assert_eq!(info.kind, FrameKind::Pvst);
}

#[test]
fn every_vlan_number_is_read_back() {
    for v in [0u16, 1, 10, 100, 1000, 4094, 4095] {
        for priority in [0u16, 3, 7] {
            let tci = (priority << 13 | v).to_be_bytes();
            let f = frame(
                PVST_MCAST,
                &[0x81, 0x00, tci[0], tci[1], 0x00, 0x26, 0x42, 0x42, 0x03],
                &[7],
            );
            assert_eq!(extract_bpdu(&f).unwrap().0.vlan_id, Some(v));
        }
    }
}

#[test]
fn frames_to_others_carry_nothing() {
    let mut dst = STP_MCAST;
    dst[5] = 1;
    assert!(extract_bpdu(&frame(dst, &[0x00, 0x26, 0x42, 0x42, 0x03], &[1])).is_none());
    assert!(extract_bpdu(&frame([0xff; 6], &[0x00, 0x26, 0x42, 0x42, 0x03], &[1])).is_none());
}

#[test]
fn other_protocols_carry_nothing() {
    // An Ethernet II type, a service tag, another LLC protocol.
    assert!(extract_bpdu(&frame(STP_MCAST, &[0x08, 0x00, 0x42, 0x42, 0x03], &[1])).is_none());
    assert!(extract_bpdu(&frame(STP_MCAST, &[0x88, 0xa8, 0x42, 0x42, 0x03], &[1])).is_none());
    assert!(extract_bpdu(&frame(STP_MCAST, &[0x06, 0x00, 0x42, 0x42, 0x03], &[1])).is_none());
    assert!(extract_bpdu(&frame(STP_MCAST, &[0x05, 0xff, 0x42, 0x42, 0x03], &[1])).is_some());
    assert!(extract_bpdu(&frame(STP_MCAST, &[0x00, 0x26, 0xe0, 0x42, 0x03], &[1])).is_none());
    assert!(extract_bpdu(&frame(STP_MCAST, &[0x00, 0x26, 0x42, 0xe0, 0x03], &[1])).is_none());
}

#[test]
fn short_frames_carry_nothing() {
    let plain = frame(STP_MCAST, &[0x00, 0x26, 0x42, 0x42, 0x03], &[1]);
    for n in 0..plain.len() {
        assert!(extract_bpdu(&plain[..n]).is_none());
    }
    assert!(extract_bpdu(&plain).is_some());
    let tagged = frame(STP_MCAST, &[0x81, 0x00, 0x00, 0x01, 0x00, 0x26, 0x42, 0x42, 0x03], &[1]);
    for n in 0..tagged.len() {
        assert!(extract_bpdu(&tagged[..n]).is_none());
    }
    assert!(extract_bpdu(&tagged).is_some());
    let snap = frame(STP_MCAST, &[0x00, 0x26, 0xaa, 0xaa, 0x03, 0, 0, 0, 0, 0], &[1]);
    for n in 0..snap.len() {
        assert!(extract_bpdu(&snap[..n]).is_none());
    }
    assert_eq!(extract_bpdu(&snap).unwrap().1, &[1]);
}

#[test]
fn addresses_are_written_in_lower_case() {
    assert_eq!(mac_str(&[0xAB, 0xCD, 0xEF, 0x01, 0x00, 0xff]), "ab:cd:ef:01:00:ff");
    let info = EtherFrame {
        src_mac: [0; 6],
        dst_mac: [0xff; 6],
        vlan_id: None,
        kind: FrameKind::Stp,
    };
    assert_eq!(info.src_mac_str(), "00:00:00:00:00:00");
    assert_eq!(info.dst_mac_str(), "ff:ff:ff:ff:ff:ff");
}

#[test]
fn different_addresses_have_different_texts() {
    for i in 0..6usize {
        for b in [1u8, 0x10, 0xff] {
            let mut mac = [0u8; 6];
            mac[i] = b;
            let text = mac_str(&mac);
            assert_eq!(text.len(), 17);
            assert!(text != mac_str(&[0; 6]));
            assert_eq!(&text[3 * i..3 * i + 2], format!("{:02x}", b));
        }
    }
}
