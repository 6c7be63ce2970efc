//! Orders, sorted collections, byte layouts and texts.

use openom::layout::{put_i16_le, put_u32_be, put_u32_le, put_u64_le};
use openom::order::{bytes_equal, bytes_less, text_equal, text_less};
use openom::protobuf::{low_32_of, put_bytes_field, put_delimited, put_varint_field, take_delimited, take_field_key};
use openom::sorted::{SortedMap, SortedSet};
use openom::text::{decimal_text, join, push_hex};

#[test]
fn bytes_and_texts_are_ordered_as_words() {
    assert!(bytes_less(&[1], &[1, 0]) && bytes_less(&[1, 9], &[2]) && !bytes_less(&[1], &[1]));
    assert!(bytes_equal(&[1, 2], &[1, 2]) && !bytes_equal(&[1], &[1, 2]));
    assert!(text_less("a", "b") && text_less("", "a") && !text_less("b", "a"));
    assert!(text_less("z", "é") && text_less("é", "漢"));
    assert!(text_equal("é", "é") && !text_equal("e", "é"));
}

#[test]
fn a_sorted_set_holds_each_once_in_order() {
    let mut s: SortedSet<String> = SortedSet::new();
    assert!(s.insert("b".to_string()) && s.insert("a".to_string()) && !s.insert("b".to_string()));
    assert_eq!(s.items, vec!["a".to_string(), "b".to_string()]);
    assert_eq!(s.first(), Some(&"a".to_string()));
    let mut t = SortedSet::new();
    t.insert("c".to_string());
    s.extend(&t);
    assert_eq!(s.len(), 3);
    assert!(s.contains(&"c".to_string()));
}

#[test]
fn a_sorted_map_keeps_its_latest() {
    let mut m: SortedMap<u64, &str> = SortedMap::new();
    m.insert(2, "two");
    m.insert(1, "one");
    m.insert(2, "zwei");
    assert_eq!(m.keys, vec![1, 2]);
    assert_eq!(m.get(&2), Some(&"zwei"));
    assert_eq!(m.remove(&1), Some("one"));
    assert_eq!(m.remove(&1), None);
    assert!(!m.contains_key(&1));
}

#[test]
fn numbers_have_their_layouts() {
    let mut out = Vec::new();
    put_u64_le(&mut out, 258);
    put_u32_le(&mut out, 258);
    put_i16_le(&mut out, -2);
    put_u32_be(&mut out, 258);
    assert_eq!(out, vec![2, 1, 0, 0, 0, 0, 0, 0, 2, 1, 0, 0, 254, 255, 0, 0, 1, 2]);
}

#[test]
fn texts_are_built_from_parts() {
    let mut hex = "x".to_string();
    push_hex(&mut hex, &[0x0f, 0xa0]);
    assert_eq!(hex, "x0fa0");
    assert_eq!(decimal_text(0), "0");
    assert_eq!(decimal_text(u64::MAX), "18446744073709551615");
    assert_eq!(join(&vec!["a".to_string(), "b".to_string()], ", "), "a, b");
    assert_eq!(join(&vec![], ", "), "");
}

#[test]
fn varints_take_seven_bits_a_byte() {
    let mut out = Vec::new();
    put_varint_field(&mut out, 1, 300);
    assert_eq!(out, vec![0x08, 0xAC, 0x02]);
    assert_eq!(take_field_key(&out), Some((1, 0, 1)));
    let mut field = Vec::new();
    put_bytes_field(&mut field, 2, b"hi");
    assert_eq!(field, vec![0x12, 2, b'h', b'i']);
    let mut framed = Vec::new();
    put_delimited(&mut framed, &[7; 200]);
    assert_eq!(&framed[..2], &[0xC8, 0x01]);
    assert_eq!(take_delimited(&framed), Some((vec![7; 200], 202)));
    assert_eq!(take_delimited(&[5, 1]), None);
    assert_eq!(low_32_of(0x1_0000_0002), 2);
}
