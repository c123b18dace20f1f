use bytes::BytesMut;
use raknet_rs::codec::decoder::dedup::{Dedup, DuplicateWindow};
use raknet_rs::packet::connected::flags::Flags;
use raknet_rs::packet::connected::frame::Frame;
use raknet_rs::packet::connected::frame_set::FrameSet;
use raknet_rs::uint24::u24;

#[test]
fn dedup_test_duplicate_windows_check_ordered() {
    let mut window = DuplicateWindow::new();
    for i in 0..1024 {
        assert!(!window.duplicate(u24(i)));
        assert_eq!(window.first_unreceived.to_u32(), i + 1);
        assert!(window.received_status.len() <= 1);
    }
}

#[test]
fn dedup_test_duplicate_windows_check_ordered_dup() {
    let mut window = DuplicateWindow::new();
    for i in 0..512 {
        assert!(!window.duplicate(u24(i)));
        assert_eq!(window.first_unreceived.to_u32(), i + 1);
        assert!(window.received_status.len() <= 1);
    }
    for i in 0..512 {
        assert!(window.duplicate(u24(i)));
    }
}

#[test]
fn dedup_test_duplicate_windows_check_gap_dup() {
    let mut window = DuplicateWindow::new();
    assert!(!window.duplicate(u24(0)));
    assert!(!window.duplicate(u24(1)));
    assert!(!window.duplicate(u24(1000)));
    assert!(!window.duplicate(u24(1001)));
    assert!(window.duplicate(u24(1000)));
    assert!(window.duplicate(u24(1001)));
    assert!(!window.duplicate(u24(500)));
    assert!(window.duplicate(u24(500)));
    assert_eq!(window.first_unreceived.to_u32(), 2);
}

#[test]
fn dedup_test_duplicate_window_clear_gap_map() {
    let mut window = DuplicateWindow::new();
    for i in (0..256).step_by(2) {
        assert!(!window.duplicate(u24(i)));
    }
    for i in (1..256).step_by(2) {
        assert!(!window.duplicate(u24(i)));
    }
    assert_eq!(window.received_status.len(), 0);
}

fn frame_set(idx: impl IntoIterator<Item = u32>) -> FrameSet<Vec<Frame<BytesMut>>> {
    FrameSet {
        seq_num: u24(0),
        set: idx
            .into_iter()
            .map(|i| Frame {
                flags: Flags::parse(0b011_11100),
                reliable_frame_index: Some(u24(i)),
                seq_frame_index: None,
                ordered: None,
                fragment: None,
                body: BytesMut::new(),
            })
            .collect(),
    }
}

/// Runs the frame sets through the layer and returns those that are passed on.
fn run(sets: Vec<FrameSet<Vec<Frame<BytesMut>>>>) -> Vec<FrameSet<Vec<Frame<BytesMut>>>> {
    let mut dedup = Dedup::new();
    sets.into_iter().filter_map(|set| dedup.deduplicate(set)).collect()
}

#[test]
fn test_dedup_works() {
    let out = run(vec![
        frame_set(0..64),
        frame_set(0..64), // duplicated
        frame_set([65, 66, 68, 69]),
        frame_set([67, 68]),
        frame_set([71, 71, 72]),
        frame_set([70]),
    ]);
    assert_eq!(
        out,
        vec![
            frame_set(0..64),
            frame_set([65, 66, 68, 69]),
            frame_set([67]),
            frame_set([71, 72]),
            frame_set([70]),
        ]
    );
}

#[test]
fn test_dedup_same() {
    let out = run(vec![frame_set([0, 1, 2, 3]), frame_set([0, 1, 2, 3])]);
    assert_eq!(out, vec![frame_set([0, 1, 2, 3])]);
}

/// The numbers of `idx` that are not in `gone`, each once, in the order of their first places.
fn once(idx: &[u32], gone: &[u32], scale: usize) -> Vec<u32> {
    let mut seen = vec![false; scale];
    for i in gone {
        seen[*i as usize] = true;
    }
    let mut out = Vec::new();
    for i in idx {
        if !seen[*i as usize] {
            seen[*i as usize] = true;
            out.push(*i);
        }
    }
    out
}

fn dedup_fuzzing_with_scale(scale: usize) {
    let random = || -> Vec<u32> {
        std::iter::repeat_with(rand::random::<u32>)
            .map(|i| i % scale as u32)
            .take(scale)
            .collect()
    };
    let idx1 = random();
    let idx2 = random();
    let first = once(&idx1, &[], scale);
    let diff = once(&idx2, &idx1, scale);

    let mut dedup = Dedup::new();
    assert_eq!(dedup.deduplicate(frame_set(idx1)), Some(frame_set(first)));
    let next = dedup.deduplicate(frame_set(idx2));
    if diff.is_empty() {
        assert!(next.is_none());
    } else {
        assert_eq!(next, Some(frame_set(diff)));
    }
}

#[test]
fn test_dedup_fuzzing_with_scale_10() {
    dedup_fuzzing_with_scale(10);
}

#[test]
fn test_dedup_fuzzing_with_scale_100() {
    dedup_fuzzing_with_scale(100);
}

#[test]
fn test_dedup_fuzzing_with_scale_1000() {
    dedup_fuzzing_with_scale(1000);
}

#[test]
fn test_dedup_fuzzing_with_scale_10000() {
    dedup_fuzzing_with_scale(10000);
}

#[test]
fn test_dedup_fuzzing_with_scale_100000() {
    dedup_fuzzing_with_scale(100000);
}

#[test]
fn frames_without_number_always_pass() {
    let plain = || {
        let mut set = frame_set([0]);
        set.set[0].reliable_frame_index = None;
        set
    };
    assert_eq!(run(vec![plain(), plain()]).len(), 2);
}

#[test]
fn window_reaches_the_last_number() {
    let mut window = DuplicateWindow::with_capacity(64);
    assert!(!window.duplicate(u24(0xff_ffff)));
    assert!(window.duplicate(u24(0xff_ffff)));
    assert_eq!(window.received_status.len(), 0x100_0000);
    assert!(!window.duplicate(u24(0)));
    assert_eq!(window.first_unreceived.to_u32(), 1);
}
