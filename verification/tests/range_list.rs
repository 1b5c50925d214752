use std::mem::size_of;

use raknet::ds::RangeList;
use raknet::{BitStreamRead, BitStreamWrite, Error};

#[test]
fn size() {
    assert_eq!(size_of::<RangeList<1, u32>>(), 24);
}

#[test]
fn serialize() {
    let mut list: RangeList<1, u32> = Default::default();
    let mut bs = BitStreamWrite::new();
    list.serialize(&mut bs)
}

#[test]
#[allow(clippy::single_range_in_vec_init)]
fn insert() {
    let mut list: RangeList<1, u32> = Default::default();
    list.insert(1);
    assert_eq!(list.ranges(), vec![1..2]);
    assert_eq!(list.find(2), Err(1));
    list.insert(2);
    assert_eq!(list.ranges(), vec![1..3]);
    assert_eq!(list.find(5), Err(1));
    list.insert(5);
    assert_eq!(list.ranges(), vec![1..3, 5..6]);
    list.insert(6);
    assert_eq!(list.ranges(), vec![1..3, 5..7]);
    list.insert(8);
    assert_eq!(list.ranges(), vec![1..3, 5..7, 8..9]);
    list.insert(10);
    assert_eq!(list.ranges(), vec![1..3, 5..7, 8..9, 10..11]);
    list.insert(4);
    assert_eq!(list.ranges(), vec![1..3, 4..7, 8..9, 10..11]);
    list.insert(0);
    assert_eq!(list.ranges(), vec![0..3, 4..7, 8..9, 10..11]);
    list.insert(3);
    assert_eq!(list.ranges(), vec![0..7, 8..9, 10..11]);
    list.insert(9);
    assert_eq!(list.ranges(), vec![0..7, 8..11]);
    list.insert(9);
    assert_eq!(list.ranges(), vec![0..7, 8..11]);
    list.insert(7);
    assert_eq!(list.ranges(), vec![0..11]);
}

#[test]
fn insert_right_after_a_range() {
    let mut list: RangeList<1, u32> = RangeList::new();
    list.insert_all(&[1, 2, 10]);
    assert_eq!(list.ranges(), vec![1..3, 10..11]);
    list.insert(3);
    assert_eq!(list.ranges(), vec![1..4, 10..11]);
    assert!(list.contains(3));
    assert_eq!(list.len(), 2);
}

#[test]
fn contains_and_find() {
    let mut list: RangeList<1, u32> = RangeList::new();
    assert!(list.is_empty());
    assert!(!list.contains(0));
    list.insert_all(&[4, 5, 6, 9]);
    assert!(!list.is_empty());
    assert!(list.contains(5));
    assert!(!list.contains(7));
    assert!(list.contains(9));
    assert_eq!(list.find(6), Ok(0));
    assert_eq!(list.find(8), Err(1));
    assert_eq!(list.find(9), Ok(1));
    assert_eq!(list.find(100), Err(2));
}

#[test]
fn min_max_ranges() {
    let mut list: RangeList<1, u32> = RangeList::new();
    list.insert_all(&[1, 2, 5]);
    assert_eq!(list.min_max_ranges(), vec![1..=2, 5..=5]);
}

#[test]
fn clear() {
    let mut list: RangeList<1, u32> = RangeList::new();
    list.insert_all(&[1, 2, 5]);
    list.clear();
    assert!(list.is_empty());
    assert_eq!(list.ranges(), vec![]);
}

#[test]
fn serialize_bytes() {
    let mut list: RangeList<1, u32> = RangeList::new();
    list.insert_all(&[1, 2, 5]);
    let mut bs = BitStreamWrite::new();
    list.serialize(&mut bs);
    assert_eq!(bs.num_bits(), 104);
    assert_eq!(bs.data(), &[0xC8, 0x02, 0, 0, 0, 0x04, 0, 0, 0x01, 0x05, 0, 0, 0]);

    let mut empty: RangeList<1, u32> = RangeList::new();
    let mut bs = BitStreamWrite::new();
    empty.serialize(&mut bs);
    assert_eq!(bs.num_bits(), 6);
    assert_eq!(bs.data(), &[0xC0]);
}

#[test]
fn deserialize_reads_back_serialize() {
    let mut list: RangeList<1, u32> = RangeList::new();
    list.insert_all(&[0, 1, 2, 7, 40, 41, 0xFFFF_FFF0]);
    let mut bs = BitStreamWrite::new();
    list.serialize(&mut bs);
    let mut rd = BitStreamRead::with_size(bs.data(), bs.num_bits());
    let back = RangeList::<1, u32>::deserialize(&mut rd).unwrap();
    assert_eq!(back.ranges(), list.ranges());
    assert!(back == list);
    assert_eq!(rd.get_number_of_unread_bits(), 0);
}

#[test]
fn deserialize_past_end() {
    let mut rd = BitStreamRead::new(&[0xC8, 0x02]);
    assert!(matches!(RangeList::<1, u32>::deserialize(&mut rd), Err(Error::BitStreamEos)));
}

#[test]
fn deserialize_wraps_last_number() {
    let mut rd = BitStreamRead::new(&[0xC7, 0xFF, 0xFF, 0xFF, 0xFE]);
    let list = RangeList::<1, u32>::deserialize(&mut rd).unwrap();
    assert_eq!(list.ranges(), vec![0xFFFF_FFFF..0]);
}

#[test]
fn insert_order_does_not_matter() {
    let mut a: RangeList<1, u32> = RangeList::new();
    a.insert_all(&[5, 1, 3, 2, 9, 4]);
    let mut b: RangeList<1, u32> = RangeList::new();
    b.insert_all(&[9, 4, 3, 2, 1, 5, 5]);
    assert!(a == b);
    assert_eq!(a.ranges(), vec![1..6, 9..10]);
}
