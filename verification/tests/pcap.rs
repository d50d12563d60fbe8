//! Legacy capture files.

use stp_postmortem::pcap::{
    iter_packets, parse_packet, parse_pcap_header, FailureKind, MAGIC_BE, MAGIC_LE,
};

fn n16(n: u16, big: bool) -> [u8; 2] {
    if big {
        n.to_be_bytes()
    } else {
        n.to_le_bytes()
    }
}

fn n32(n: u32, big: bool) -> [u8; 4] {
    if big {
        n.to_be_bytes()
    } else {
        n.to_le_bytes()
    }
}

fn header(network: u32, big: bool) -> Vec<u8> {
    let mut f = Vec::new();
    f.extend_from_slice(&n32(0xa1b2c3d4, big));
    f.extend_from_slice(&n16(2, big));
    f.extend_from_slice(&n16(4, big));
    f.extend_from_slice(&n32(3600, big));
    f.extend_from_slice(&n32(17, big));
    f.extend_from_slice(&n32(65_535, big));
    f.extend_from_slice(&n32(network, big));
    f
}

fn record(sec: u32, usec: u32, data: &[u8], orig_len: u32, big: bool) -> Vec<u8> {
    let mut f = Vec::new();
    f.extend_from_slice(&n32(sec, big));
    f.extend_from_slice(&n32(usec, big));
    f.extend_from_slice(&n32(data.len() as u32, big));
    f.extend_from_slice(&n32(orig_len, big));
    f.extend_from_slice(data);
    f
}

#[test]
fn a_header_is_read_in_both_byte_orders() {
    for big in [false, true] {
        let mut f = header(1, big);
        f.extend_from_slice(&[0xde, 0xad]);
        let (rest, h) = parse_pcap_header(&f).unwrap();
        assert_eq!(rest, &[0xde, 0xad]);
        assert_eq!(h.magic, if big { MAGIC_BE } else { MAGIC_LE });
        assert_eq!((h.version_major, h.version_minor), (2, 4));
        assert_eq!(h.snaplen, 65_535);
        assert_eq!(h.network, 1);
        assert_eq!(h.big_endian, big);
    }
}

#[test]
fn a_record_is_read_in_both_byte_orders() {
    for big in [false, true] {
        let mut f = record(1_700_000_000, 42, &[1, 2, 3, 4, 5], 99, big);
        f.extend_from_slice(&[7, 7]);
        let (rest, packet) = parse_packet(&f, big).unwrap();
        assert_eq!(rest, &[7, 7]);
        assert_eq!((packet.ts_sec, packet.ts_usec), (1_700_000_000, 42));
        assert_eq!(packet.data, &[1, 2, 3, 4, 5]);
    }
}

#[test]
fn a_capture_is_read_as_it_was_written() {
    for big in [false, true] {
        let mut f = header(1, big);
        f.extend(record(10, 1, &[1], 1, big));
        f.extend(record(11, 2, &[], 60, big));
        f.extend(record(9, 999_999, &[3; 200], 200, big));
        let (h, packets) = iter_packets(&f).unwrap();
        assert_eq!(h.big_endian, big);
        let seen: Vec<(u32, u32, Vec<u8>)> =
            packets.iter().map(|p| (p.ts_sec, p.ts_usec, p.data.to_vec())).collect();
        assert_eq!(
            seen,
            vec![(10, 1, vec![1]), (11, 2, vec![]), (9, 999_999, vec![3; 200])]
        );
    }
}

#[test]
fn a_cut_off_record_ends_the_list() {
    let mut f = header(1, false);
    f.extend(record(10, 1, &[1, 2, 3], 3, false));
    let whole = f.len();
    f.extend(record(11, 2, &[4, 5, 6], 3, false));
    for n in 24..f.len() {
        let expected = if n < whole { 0 } else { 1 };
        assert_eq!(iter_packets(&f[..n]).unwrap().1.len(), expected);
    }
    assert_eq!(iter_packets(&f).unwrap().1.len(), 2);
}

#[test]
fn a_cut_off_record_tells_where_it_ended() {
    let f = record(1, 2, &[1, 2, 3], 3, false);
    for (n, left) in [(0usize, 0usize), (3, 3), (4, 0), (7, 3), (9, 1), (13, 1), (16, 0), (18, 2)] {
        let failure = parse_packet(&f[..n], false).unwrap_err();
        assert_eq!(failure.code, FailureKind::Eof);
        assert_eq!(failure.input, &f[n - left..n]);
    }
}

#[test]
fn other_link_types_are_refused() {
    for network in [0u32, 2, 113, u32::MAX] {
        let message = iter_packets(&header(network, true)).unwrap_err();
        assert_eq!(
            message,
            format!("Unsupported link type: {} (only Ethernet/1 supported)", network)
        );
    }
}

/// The complaint about a header that the parser library stops at.
fn complaint(e: nom::Err<nom::error::Error<&[u8]>>) -> String {
    format!("Failed to parse PCAP header: {:?}", e)
}

#[test]
fn a_cut_off_header_is_named_as_the_parser_library_names_it() {
    for big in [false, true] {
        let f = header(1, big);
        // Where the fields begin, and how long they are.
        let fields = [(0usize, 4usize), (4, 2), (6, 2), (8, 4), (12, 4), (16, 4), (20, 4)];
        for (start, len) in fields {
            for n in start..start + len {
                let rest = &f[start..n];
                let expected = if len == 2 {
                    let e = nom::number::complete::le_u16::<_, nom::error::Error<&[u8]>>(rest);
                    complaint(e.unwrap_err())
                } else {
                    let e = nom::number::complete::be_u32::<_, nom::error::Error<&[u8]>>(rest);
                    complaint(e.unwrap_err())
                };
                assert_eq!(iter_packets(&f[..n]).unwrap_err(), expected);
                let failure = parse_pcap_header(&f[..n]).unwrap_err();
                assert_eq!(failure.input, rest);
                assert_eq!(failure.code, FailureKind::Eof);
            }
        }
    }
    assert_eq!(
        iter_packets(&[1, 2, 30]).unwrap_err(),
        "Failed to parse PCAP header: Error(Error { input: [1, 2, 30], code: Eof })"
    );
    assert_eq!(
        iter_packets(&[]).unwrap_err(),
        "Failed to parse PCAP header: Error(Error { input: [], code: Eof })"
    );
}

#[test]
fn an_unknown_magic_number_is_refused() {
    let mut f = header(1, false);
    f[0] = 0;
    f.truncate(7);
    let failure = parse_pcap_header(&f).unwrap_err();
    assert_eq!(failure.code, FailureKind::Tag);
    assert_eq!(failure.input, &f[4..]);
    let error: nom::Err<nom::error::Error<&[u8]>> =
        nom::Err::Error(nom::error::Error::new(&f[4..], nom::error::ErrorKind::Tag));
    assert_eq!(iter_packets(&f).unwrap_err(), complaint(error));
}
