//! PCAPng capture files.

use stp_postmortem::pcapng::{is_pcapng, parse_pcapng, Interface};

fn n16(n: u16, big: bool) -> [u8; 2] {
    if big {
        n.to_be_bytes()
    } else {
        n.to_le_bytes()
    }
}

fn n32(n: u32, big: bool) -> [u8; 4] {
    if big {
        n.to_be_bytes()
    } else {
        n.to_le_bytes()
    }
}

fn block(kind: u32, body: &[u8], big: bool) -> Vec<u8> {
    let len = body.len() as u32 + 12;
    let mut b = Vec::new();
    b.extend_from_slice(&n32(kind, big));
    b.extend_from_slice(&n32(len, big));
    b.extend_from_slice(body);
    b.extend_from_slice(&n32(len, big));
    b
}

fn section(big: bool) -> Vec<u8> {
    let mut body = Vec::new();
    body.extend_from_slice(&n32(0x1A2B3C4D, big));
    body.extend_from_slice(&n16(1, big));
    body.extend_from_slice(&n16(0, big));
    body.extend_from_slice(&[0xff; 8]);
    block(0x0A0D0D0A, &body, big)
}

fn interface(link: u16, options: &[u8], big: bool) -> Vec<u8> {
    let mut body = Vec::new();
    body.extend_from_slice(&n16(link, big));
    body.extend_from_slice(&[0, 0]);
    body.extend_from_slice(&n32(65_535, big));
    body.extend_from_slice(options);
    block(1, &body, big)
}

fn option(code: u16, value: &[u8], big: bool) -> Vec<u8> {
    let mut o = Vec::new();
    o.extend_from_slice(&n16(code, big));
    o.extend_from_slice(&n16(value.len() as u16, big));
    o.extend_from_slice(value);
    while o.len() % 4 != 0 {
        o.push(0);
    }
    o
}

fn packet(id: u32, ticks: u64, data: &[u8], big: bool) -> Vec<u8> {
    let mut body = Vec::new();
    body.extend_from_slice(&n32(id, big));
    body.extend_from_slice(&n32((ticks >> 32) as u32, big));
    body.extend_from_slice(&n32(ticks as u32, big));
    body.extend_from_slice(&n32(data.len() as u32, big));
    body.extend_from_slice(&n32(data.len() as u32, big));
    body.extend_from_slice(data);
    while body.len() % 4 != 0 {
        body.push(0);
    }
    block(6, &body, big)
}

fn old_packet(id: u16, ticks: u64, data: &[u8], big: bool) -> Vec<u8> {
    let mut body = Vec::new();
    body.extend_from_slice(&n16(id, big));
    body.extend_from_slice(&n16(0, big));
    body.extend_from_slice(&n32((ticks >> 32) as u32, big));
    body.extend_from_slice(&n32(ticks as u32, big));
    body.extend_from_slice(&n32(data.len() as u32, big));
    body.extend_from_slice(&n32(data.len() as u32, big));
    body.extend_from_slice(data);
    block(2, &body, big)
}

fn simple_packet(orig_len: u32, data: &[u8], big: bool) -> Vec<u8> {
    let mut body = Vec::new();
    body.extend_from_slice(&n32(orig_len, big));
    body.extend_from_slice(data);
    block(3, &body, big)
}

fn join(parts: &[Vec<u8>]) -> Vec<u8> {
    parts.concat()
}

#[test]
fn a_file_is_read_as_it_was_written() {
    for big in [false, true] {
        let f = join(&[
            section(big),
            interface(1, &[], big),
            packet(0, 1_700_000_000_123_456, &[1, 2, 3], big),
            packet(0, 5_000_001, &[4; 60], big),
        ]);
        assert!(is_pcapng(&f));
        assert_eq!(
            parse_pcapng(&f).unwrap(),
            vec![(1_700_000_000, 123_456, vec![1, 2, 3]), (5, 1, vec![4; 60])]
        );
    }
}

#[test]
fn unknown_blocks_are_skipped() {
    let f = join(&[
        section(false),
        block(0x0BAD, &[9; 8], false),
        interface(1, &[], false),
        block(5, &[1; 20], false),
        packet(0, 7_000_000, &[1], false),
    ]);
    assert_eq!(parse_pcapng(&f).unwrap(), vec![(7, 0, vec![1])]);
}

#[test]
fn a_new_section_forgets_the_interfaces() {
    let nanos = option(9, &[9], false);
    let f = join(&[
        section(false),
        interface(1, &nanos, false),
        packet(0, 3_000_000_000, &[1], false),
        section(true),
        packet(0, 3_000_000, &[2], true),
        interface(1, &option(9, &[3], true), true),
        packet(0, 3_500, &[3], true),
    ]);
    assert_eq!(
        parse_pcapng(&f).unwrap(),
        vec![(3, 0, vec![1]), (3, 0, vec![2]), (3, 500_000, vec![3])]
    );
}

#[test]
fn clock_options_set_resolution_and_offset() {
    let mut options = option(2, b"eth0", false);
    options.extend(option(9, &[9], false));
    options.extend(option(14, &100u64.to_le_bytes(), false));
    options.extend(option(0, &[], false));
    options.extend(option(9, &[3], false));
    let f = join(&[
        section(false),
        interface(1, &options, false),
        packet(0, 2_000_001_999, &[1], false),
    ]);
    assert_eq!(parse_pcapng(&f).unwrap(), vec![(102, 1, vec![1])]);
}

#[test]
fn options_that_do_not_fit_are_ignored() {
    // The value of the last option would reach into the trailer.
    let mut options = Vec::new();
    options.extend_from_slice(&n16(9, false));
    options.extend_from_slice(&n16(5, false));
    options.extend_from_slice(&[3, 0, 0, 0]);
    let f = join(&[
        section(false),
        interface(1, &options, false),
        packet(0, 4_000_000, &[1], false),
    ]);
    assert_eq!(parse_pcapng(&f).unwrap(), vec![(4, 0, vec![1])]);
    // An offset shorter than eight bytes, and an empty resolution.
    let mut short = option(14, &[1, 2, 3, 4], false);
    short.extend(option(9, &[], false));
    let f = join(&[
        section(false),
        interface(1, &short, false),
        packet(0, 4_000_000, &[1], false),
    ]);
    assert_eq!(parse_pcapng(&f).unwrap(), vec![(4, 0, vec![1])]);
}

#[test]
fn only_ethernet_is_read() {
    let f = join(&[
        section(false),
        interface(113, &[], false),
        interface(1, &[], false),
        packet(0, 1_000_000, &[1], false),
        packet(1, 2_000_000, &[2], false),
        packet(9, 3_000_000, &[3], false),
        old_packet(0, 4_000_000, &[4, 4, 4, 4], false),
        old_packet(1, 5_000_000, &[5, 5, 5, 5], false),
        simple_packet(4, &[6, 6, 6, 6], false),
    ]);
    assert_eq!(
        parse_pcapng(&f).unwrap(),
        vec![(2, 0, vec![2]), (3, 0, vec![3]), (5, 0, vec![5; 4])]
    );
}

#[test]
fn simple_packets_have_no_time() {
    let f = join(&[
        section(false),
        interface(1, &[], false),
        simple_packet(3, &[1, 2, 3, 0], false),
        simple_packet(100, &[1, 2, 3, 4], false),
        simple_packet(0, &[1, 2, 3, 4], false),
        simple_packet(7, &[], false),
    ]);
    assert_eq!(
        parse_pcapng(&f).unwrap(),
        vec![(0, 0, vec![1, 2, 3]), (0, 0, vec![1, 2, 3, 4])]
    );
}

#[test]
fn data_that_do_not_fit_are_left_out() {
    let mut p = packet(0, 1_000_000, &[1, 2, 3, 4], false);
    p[20] = 5;
    let f = join(&[section(false), interface(1, &[], false), p]);
    assert_eq!(parse_pcapng(&f).unwrap(), vec![]);
}

#[test]
fn short_blocks_are_skipped() {
    let mut bare_section = Vec::new();
    bare_section.extend_from_slice(&n32(0x0A0D0D0A, false));
    bare_section.extend_from_slice(&n32(12, false));
    bare_section.extend_from_slice(&n32(12, false));
    let f = join(&[
        bare_section,
        section(false),
        block(1, &[0; 4], false),
        block(6, &[0; 16], false),
        block(2, &[0; 16], false),
        block(3, &[], false),
        packet(0, 1_000_000, &[1], false),
    ]);
    assert_eq!(parse_pcapng(&f).unwrap(), vec![(1, 0, vec![1])]);
}

#[test]
fn a_missing_end_leaves_the_packets_before_it() {
    let head = join(&[section(false), interface(1, &[], false)]);
    let one = join(&[head.clone(), packet(0, 1_000_000, &[1], false)]);
    let two = join(&[one.clone(), packet(0, 2_000_000, &[2], false)]);
    for n in 12..two.len() {
        let expected = if n < one.len() { 0 } else { 1 };
        assert_eq!(parse_pcapng(&two[..n]).unwrap().len(), expected);
    }
    assert_eq!(parse_pcapng(&two).unwrap().len(), 2);
}

#[test]
fn a_block_without_a_sound_length_ends_the_file() {
    let mut bad = packet(0, 2_000_000, &[2], false);
    bad[4] = 11;
    let f = join(&[
        section(false),
        packet(0, 1_000_000, &[1], false),
        bad,
        packet(0, 3_000_000, &[3], false),
    ]);
    assert_eq!(parse_pcapng(&f).unwrap(), vec![(1, 0, vec![1])]);
}

#[test]
fn files_of_other_kinds_are_refused() {
    assert_eq!(parse_pcapng(&[0x0a, 0x0d, 0x0d, 0x0a]).unwrap_err(), "File too short for PCAPng");
    assert!(is_pcapng(&[0x0a, 0x0d, 0x0d, 0x0a]));
    assert!(!is_pcapng(&[0x0a, 0x0d, 0x0d]));
    let mut f = section(false);
    f[0] = 0xd4;
    assert_eq!(parse_pcapng(&f).unwrap_err(), "Not a PCAPng file (magic: 0x0a0d0dd4)");
    let mut f = section(false);
    f[8..12].copy_from_slice(&[0x01, 0x02, 0x03, 0x04]);
    assert_eq!(parse_pcapng(&f).unwrap_err(), "Invalid BOM: 0x04030201");
}

#[test]
fn a_big_endian_file_is_read_like_a_little_endian_one() {
    let be = |n: u32| n.to_be_bytes().to_vec();
    let f = join(&[
        be(0x0A0D0D0A),
        be(28),
        be(0x1A2B3C4D),
        vec![0, 1, 0, 0],
        vec![0xff; 8],
        be(28),
        be(1),
        be(20),
        vec![0, 1, 0, 0],
        be(0),
        be(20),
        be(6),
        be(36),
        be(0),
        be(0),
        be(1_500_000),
        be(4),
        be(4),
        vec![1, 2, 3, 4],
        be(36),
    ]);
    let expected = vec![(1, 500_000, vec![1, 2, 3, 4])];
    assert_eq!(parse_pcapng(&f).unwrap(), expected);
    let little = join(&[
        section(false),
        interface(1, &[], false),
        packet(0, 1_500_000, &[1, 2, 3, 4], false),
    ]);
    assert_eq!(parse_pcapng(&little).unwrap(), expected);
}

#[test]
fn sections_of_both_byte_orders_follow_each_other() {
    for (first, second) in [(false, true), (true, false), (true, true)] {
        let f = join(&[
            section(first),
            interface(1, &[], first),
            packet(0, 1_000_000, &[1], first),
            section(second),
            packet(0, 2_000_000, &[2], second),
        ]);
        assert_eq!(parse_pcapng(&f).unwrap(), vec![(1, 0, vec![1]), (2, 0, vec![2])]);
    }
}

#[test]
fn every_clock_tells_some_time() {
    for resol in 0..=255u8 {
        let f = join(&[
            section(false),
            interface(1, &option(9, &[resol], false), false),
            packet(0, 1, &[1], false),
        ]);
        assert_eq!(parse_pcapng(&f).unwrap().len(), 1);
    }
}

#[test]
fn clocks_tell_the_time() {
    let clock = |ts_resol: u8, ts_offset: u64| Interface { link_type: 1, ts_resol, ts_offset };
    assert_eq!(clock(6, 0).ts_to_secs_usecs(12_345_678), (12, 345_678));
    assert_eq!(clock(9, 0).ts_to_secs_usecs(12_345_678_999), (12, 345_678));
    assert_eq!(clock(3, 0).ts_to_secs_usecs(12_345), (12, 345_000));
    assert_eq!(clock(0, 0).ts_to_secs_usecs(12), (12, 0));
    assert_eq!(clock(6, 1_000).ts_to_secs_usecs(12_000_000), (1_012, 0));
    assert_eq!(clock(0, 0).ts_to_secs_usecs(0x1_0000_0005), (5, 0));
    assert_eq!(clock(6, u64::MAX).ts_to_secs_usecs(12_000_000), (11, 0));
    assert_eq!(clock(15, 0).ts_to_secs_usecs(999_999_999_999_999), (0, 999_999));
    assert_eq!(clock(19, 0).ts_to_secs_usecs(u64::MAX), (1, 844_674));
    assert_eq!(clock(20, 0).ts_to_secs_usecs(u64::MAX), (0, 184_467));
    assert_eq!(clock(26, 7).ts_to_secs_usecs(u64::MAX), (7, 0));
    assert_eq!(clock(127, 7).ts_to_secs_usecs(u64::MAX), (7, 0));
}

#[test]
fn microseconds_are_less_than_a_second() {
    for ts_resol in 0..=255u8 {
        for ts in [0u64, 1, 999_999, 123_456_789_012_345, u64::MAX / 3, u64::MAX] {
            let clock = Interface { link_type: 1, ts_resol, ts_offset: 0 };
            assert!(clock.ts_to_secs_usecs(ts).1 < 1_000_000);
        }
    }
}

#[test]
fn clocks_can_tick_in_powers_of_two() {
    let clock = |ts_resol: u8| Interface { link_type: 1, ts_resol, ts_offset: 0 };
    assert_eq!(clock(0x81).ts_to_secs_usecs(3), (1, 500_000));
    assert_eq!(clock(0x80).ts_to_secs_usecs(12), (12, 0));
    assert_eq!(clock(0x8a).ts_to_secs_usecs(5 * 1024 + 1), (5, 976));
    assert_eq!(clock(0xa0).ts_to_secs_usecs(0x0000_0007_c000_0000), (7, 750_000));
    assert_eq!(clock(0xc0).ts_to_secs_usecs(u64::MAX), (0, 999_999));
    assert_eq!(clock(0xff).ts_to_secs_usecs(u64::MAX), (0, 0));
}
