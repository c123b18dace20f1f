use std::collections::VecDeque;

use bytes::{BufMut, BytesMut};
use raknet_rs::packet::connected::ack::{AckOrNack, Record};
use raknet_rs::uint24::u24;

fn numbers(seq_nums: Vec<u32>) -> VecDeque<u24> {
    seq_nums.into_iter().map(u24).collect()
}

fn ack_should_not_overflow_mtu(test_cases: Vec<(Vec<u32>, usize, usize)>) {
    let mtu: u16 = 21;
    let mut buf = BytesMut::with_capacity(mtu as usize);
    for (seq_nums, len, remain) in test_cases {
        buf.clear();
        // pack type
        buf.put_u8(0);
        let mut seq_nums = numbers(seq_nums);
        let ack = AckOrNack::extend_from(&mut seq_nums, mtu).unwrap();
        ack.write(&mut buf);
        assert_eq!(buf.len(), len);
        assert_eq!(seq_nums.len(), remain);
    }
}

#[test]
fn connected_test_ack_should_not_overflow_mtu() {
    ack_should_not_overflow_mtu(vec![
        // 3 + 0-2(7) + 4-5(7) + 7(4) = 21, remain 8
        (vec![0, 1, 2, 4, 5, 7, 8], 21, 1),
        // 3 + 0-1(7) + 3-4(7) + 6(4) = 21, remain 7, 9
        (vec![0, 1, 3, 4, 6, 7, 9], 21, 2),
        // 3 + 0(4) + 2(4) + 4(4) + 6(4) = 19, remain 8, 10, 12
        (vec![0, 2, 4, 6, 8, 10, 12], 19, 3),
        // 3 + 0(4) + 2(4) + 5-6(7) = 18, remain 8, 9, 12
        (vec![0, 2, 5, 6, 8, 9, 12], 18, 3),
        // 3 + 0-1(7) = 10, no remain
        (vec![0, 1], 10, 0),
        // 3 + 0(4) + 2-3(7) = 14, no remain
        (vec![0, 2, 3], 14, 0),
        // 3 + 0(4) + 2(4) + 4(4) = 15, no remain
        (vec![0, 2, 4], 15, 0),
    ]);
}

#[test]
fn ack_test_ack_should_not_overflow_mtu() {
    ack_should_not_overflow_mtu(vec![
        // 3 + 0-2(7) + 4-5(7) + 7(4) = 21, remain 8
        (vec![0, 1, 2, 4, 5, 7, 8], 21, 1),
        // 3 + 0-1(7) + 3-4(7) + 6(4) = 21, remain 7, 9
        (vec![0, 1, 3, 4, 6, 7, 9], 21, 2),
        // 3 + 0(4) + 2(4) + 4(4) + 6(4) = 19, remain 8, 10, 12
        (vec![0, 2, 4, 6, 8, 10, 12], 19, 3),
        // 3 + 0(4) + 2(4) + 5-6(7) = 18, remain 8, 9, 12
        (vec![0, 2, 5, 6, 8, 9, 12], 18, 3),
        // 3 + 0-1(7) = 10, no remain
        (vec![0, 1], 10, 0),
        // 3 + 0(4) + 2-3(7) = 14, no remain
        (vec![0, 2, 3], 14, 0),
        // 3 + 0(4) + 2(4) + 4(4) = 15, no remain
        (vec![0, 2, 4], 15, 0),
        // 3 + 1(4) + 1(4) + 1(4) = 15, no remain
        (vec![1, 1, 1], 15, 0),
        // 3 + 0-999(7) = 10, no remain
        (Vec::from_iter(0..1000), 10, 0),
    ]);
}

#[test]
fn nothing_to_acknowledge() {
    assert!(AckOrNack::extend_from(&mut VecDeque::new(), 100).is_none());
}

#[test]
fn runs_become_ranges() {
    let mut seq_nums = numbers(vec![0, 1, 2, 4, 6, 7]);
    let ack = AckOrNack::extend_from(&mut seq_nums, 100).unwrap();
    assert_eq!(
        ack.records,
        vec![
            Record::Range(u24(0), u24(2)),
            Record::Single(u24(4)),
            Record::Range(u24(6), u24(7)),
        ]
    );
    assert_eq!(ack.total_cnt(), 6);
    let mut buf = BytesMut::new();
    ack.write(&mut buf);
    assert_eq!(
        &buf[..],
        &[0, 3, 0, 0, 0, 0, 2, 0, 0, 1, 4, 0, 0, 0, 6, 0, 0, 7, 0, 0]
    );
}

#[test]
fn counts_start_over_after_the_last_number() {
    assert_eq!(Record::Range(u24(5), u24(9)).ack_cnt(), 5);
    assert_eq!(Record::Single(u24(5)).ack_cnt(), 1);
    assert_eq!(Record::Range(u24(0xff_ffff), u24(0)).ack_cnt(), 2);
    assert_eq!(Record::Range(u24(0), u24(0xff_ffff)).ack_cnt(), 0);
}
