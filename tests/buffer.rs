use turntable::buffer::{BufferRead, MultiRangeBuffer, Sample};

fn range(from: u32, to: u32) -> Vec<Sample> {
    (from..to).collect()
}

#[test]
fn write_then_read_back() {
    let mut b = MultiRangeBuffer::new(1000);
    b.write(10, &range(0, 20));
    let mut dst = vec![0u32; 20];
    assert_eq!(b.read(10, &mut dst), BufferRead::Full(20));
    assert_eq!(dst, range(0, 20));
}

#[test]
fn read_partial_and_empty() {
    let mut b = MultiRangeBuffer::new(1000);
    b.write(0, &range(0, 5));
    let mut dst = vec![7u32; 8];
    assert_eq!(b.read(2, &mut dst), BufferRead::Partial(3));
    assert_eq!(dst, vec![2, 3, 4, 7, 7, 7, 7, 7]);
    let mut dst = vec![0u32; 4];
    assert_eq!(b.read(5, &mut dst), BufferRead::Empty);
}

#[test]
fn read_reaching_end() {
    let mut b = MultiRangeBuffer::new(6);
    b.write(0, &range(0, 6));
    let mut dst = vec![0u32; 10];
    assert_eq!(b.read(4, &mut dst), BufferRead::End(2));
}

#[test]
fn touching_writes_merge() {
    let mut b = MultiRangeBuffer::new(1000);
    b.write(0, &range(0, 5));
    b.write(5, &range(5, 10));
    let d = b.distance_from_void(0);
    assert_eq!(d.distance, 10);
    assert!(!d.is_end);
}

#[test]
fn overlapping_write_prefers_later() {
    let mut b = MultiRangeBuffer::new(1000);
    b.write(0, &range(0, 10));
    b.write(20, &range(20, 30));
    b.write(5, &vec![99u32; 20]);
    assert_eq!(b.distance_from_void(0).distance, 30);
    let mut dst = vec![0u32; 30];
    b.read(0, &mut dst);
    assert_eq!(&dst[0..5], &range(0, 5)[..]);
    assert!(dst[5..25].iter().all(|&v| v == 99));
    assert_eq!(&dst[25..30], &range(25, 30)[..]);
}

#[test]
fn write_past_expected_length_is_cut() {
    let mut b = MultiRangeBuffer::new(10);
    b.write(8, &range(0, 5));
    let d = b.distance_from_void(8);
    assert_eq!(d.distance, 2);
    assert!(d.is_end);
    b.write(12, &range(0, 5));
    let d = b.distance_from_void(12);
    assert_eq!((d.distance, d.is_end), (0, false));
}

#[test]
fn gap_stops_the_run() {
    let mut b = MultiRangeBuffer::new(100);
    b.write(0, &range(0, 4));
    b.write(6, &range(6, 10));
    assert_eq!(b.distance_from_void(1).distance, 3);
    assert_eq!(b.distance_from_void(4).distance, 0);
    assert_eq!(b.distance_from_void(6).distance, 4);
}

#[test]
fn retain_window_drops_and_trims() {
    let mut b = MultiRangeBuffer::new(1000);
    b.write(0, &range(0, 100));
    b.write(500, &range(500, 600));
    b.retain_window(550, 20, 1);
    assert_eq!(b.distance_from_void(0).distance, 0);
    assert_eq!(b.distance_from_void(50).distance, 0);
    assert_eq!(b.distance_from_void(529).distance, 0);
    assert_eq!(b.distance_from_void(530).distance, 40);
    let mut dst = vec![0u32; 1];
    b.read(530, &mut dst);
    assert_eq!(dst[0], 530);
}

#[test]
fn retain_window_aligns_to_chunks() {
    let mut b = MultiRangeBuffer::new(1000);
    b.write(0, &range(0, 200));
    b.retain_window(101, 10, 4);
    // [91, 111) widened to [88, 112)
    assert_eq!(b.distance_from_void(87).distance, 0);
    assert_eq!(b.distance_from_void(88).distance, 24);
}

#[test]
fn empty_write_changes_nothing() {
    let mut b = MultiRangeBuffer::new(10);
    b.write(3, &[]);
    assert_eq!(b.distance_from_void(3).distance, 0);
    assert_eq!(b.expected_length(), 10);
}
