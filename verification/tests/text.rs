//! Numbers and lists as text, and numbers in bytes.

use stp_postmortem::bytes::{read_u16, read_u32, read_u64};
use stp_postmortem::text::{holds, push_byte_list, push_decimal, push_hex, push_joined};

#[test]
fn decimal_digits() {
    for n in [0u64, 9, 10, 99, 100, 65_535, 1_234_567_890, u64::MAX] {
        let mut s = String::from("n=");
        push_decimal(&mut s, n);
        assert_eq!(s, format!("n={}", n));
    }
}

#[test]
fn hexadecimal_digits() {
    for n in [0u32, 0xa, 0xff, 0x1234_abcd, u32::MAX] {
        let mut s = String::new();
        push_hex(&mut s, n, 8);
        assert_eq!(s, format!("{:08x}", n));
    }
    let mut s = String::new();
    push_hex(&mut s, 0x1234, 2);
    assert_eq!(s, "34");
}

#[test]
fn lists_of_bytes() {
    for list in [vec![], vec![7u8], vec![0, 10, 255]] {
        let mut s = String::new();
        push_byte_list(&mut s, &list);
        assert_eq!(s, format!("{:?}", list));
    }
}

#[test]
fn joined_texts() {
    let mut s = String::from(">");
    push_joined(&mut s, &vec![], ", ");
    assert_eq!(s, ">");
    push_joined(&mut s, &vec!["a"], ", ");
    assert_eq!(s, ">a");
    push_joined(&mut s, &vec!["b", "", "c"], ", ");
    assert_eq!(s, ">ab, , c");
}

#[test]
fn a_list_holds_its_items() {
    let list = vec![String::from("VLAN 1"), String::from("native")];
    assert!(holds(&list, &String::from("native")));
    assert!(!holds(&list, &String::from("VLAN 2")));
    assert!(!holds(&vec![], &String::new()));
}

#[test]
fn numbers_in_either_byte_order() {
    let data = [0x01, 0x23, 0x45, 0x67, 0x89, 0xab, 0xcd, 0xef, 0x10];
    assert_eq!(read_u16(&data, 1, true), Some(0x2345));
    assert_eq!(read_u16(&data, 1, false), Some(0x4523));
    assert_eq!(read_u32(&data, 0, true), Some(0x01234567));
    assert_eq!(read_u32(&data, 0, false), Some(0x67452301));
    assert_eq!(read_u64(&data, 1, true), Some(0x23456789abcdef10));
    assert_eq!(read_u64(&data, 1, false), Some(0x10efcdab89674523));
    assert_eq!(read_u16(&data, 8, true), None);
    assert_eq!(read_u32(&data, 6, true), None);
    assert_eq!(read_u64(&data, 2, true), None);
    assert_eq!(read_u64(&data, usize::MAX, true), None);
}

#[test]
fn numbers_are_read_as_they_were_written() {
    for n in [0u64, 1, 0x0102030405060708, u64::MAX] {
        assert_eq!(read_u64(&n.to_be_bytes(), 0, true), Some(n));
        assert_eq!(read_u64(&n.to_le_bytes(), 0, false), Some(n));
        assert_eq!(read_u32(&(n as u32).to_be_bytes(), 0, true), Some(n as u32));
        assert_eq!(read_u32(&(n as u32).to_le_bytes(), 0, false), Some(n as u32));
        assert_eq!(read_u16(&(n as u16).to_be_bytes(), 0, true), Some(n as u16));
        assert_eq!(read_u16(&(n as u16).to_le_bytes(), 0, false), Some(n as u16));
    }
}

#[test]
fn different_numbers_have_different_digits() {
    let mut seen: Vec<String> = Vec::new();
    for n in [0u64, 1, 10, 11, 100, 101, 110, 1000, 1001] {
        let mut s = String::new();
        push_decimal(&mut s, n);
        assert!(!holds(&seen, &s));
        seen.push(s);
    }
}
