use voudp::client::{ring_drain_frame, ring_pop_or_zero, ring_push_capture};

#[test]
fn capture_ring_appends_and_drops_oldest_pair() {
    let mut ring: Vec<u32> = Vec::new();
    ring_push_capture(&mut ring, 6, 1, 2, false);
    ring_push_capture(&mut ring, 6, 3, 4, false);
    ring_push_capture(&mut ring, 6, 5, 6, false);
    assert_eq!(ring, vec![1, 2, 3, 4, 5, 6]);
    // Full: the oldest stereo pair makes room.
    ring_push_capture(&mut ring, 6, 7, 8, false);
    assert_eq!(ring, vec![3, 4, 5, 6, 7, 8]);
}

#[test]
fn capture_ring_writes_silence_while_muted() {
    let mut ring: Vec<u32> = Vec::new();
    ring_push_capture(&mut ring, 4, 9, 9, true);
    assert_eq!(ring, vec![0, 0]);
    ring_push_capture(&mut ring, 4, 5, 6, false);
    assert_eq!(ring, vec![0, 0, 5, 6]);
}

#[test]
fn playback_pops_or_substitutes_silence() {
    let mut ring: Vec<u32> = vec![7, 8];
    // Deafened: silence, and the buffered audio stays put.
    assert_eq!(ring_pop_or_zero(&mut ring, true), 0);
    assert_eq!(ring, vec![7, 8]);
    assert_eq!(ring_pop_or_zero(&mut ring, false), 7);
    assert_eq!(ring_pop_or_zero(&mut ring, false), 8);
    // Empty: silence.
    assert_eq!(ring_pop_or_zero(&mut ring, false), 0);
}

#[test]
fn network_side_drains_whole_frames_only() {
    let mut ring: Vec<u32> = vec![1, 2, 3, 4, 5];
    assert!(ring_drain_frame(&mut ring, 6).is_none());
    assert_eq!(ring, vec![1, 2, 3, 4, 5]);
    let frame = ring_drain_frame(&mut ring, 4).expect("a whole frame is buffered");
    assert_eq!(frame, vec![1, 2, 3, 4]);
    assert_eq!(ring, vec![5]);
}
