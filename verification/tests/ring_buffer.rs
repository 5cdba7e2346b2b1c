//! The ring of samples and its timeline.
use ed_compass::audio::ring_buffer::{PcmRing, RangeError};

/// Interleaved ramp: frame i, channel c => i * 10 + c.
fn ramp(frames: usize, channels: usize, start: usize) -> Vec<f32> {
    (0..frames)
        .flat_map(|i| (0..channels).map(move |c| ((start + i) * 10 + c) as f32))
        .collect()
}

fn ring_of(capacity: usize, channels: usize) -> PcmRing<f32> {
    PcmRing::new(capacity, channels, 0.0)
}

fn resident(ring: &PcmRing<f32>) -> Vec<f32> {
    let (a, b) = ring.slices();
    a.iter().chain(b.iter()).copied().collect()
}

#[test]
fn starts_empty() {
    let ring = ring_of(10, 2);
    assert!(ring.is_empty());
    assert_eq!(ring.len_frames(), 0);
    assert_eq!(ring.total_frames(), 0);
    assert_eq!(ring.slices(), (&[][..], &[][..]));
}

#[test]
fn sizes_from_seconds() {
    let ring = PcmRing::with_seconds(150_000_000, 48_000, 8, 0.0f32);
    assert_eq!(ring.capacity_frames(), 150 * 48_000);
    assert_eq!(ring.bytes(), 150 * 48_000 * 8 * 4);
}

#[test]
fn partial_fill_reads_back_verbatim() {
    let mut ring = ring_of(10, 2);
    ring.push_interleaved(&ramp(4, 2, 0));
    assert_eq!(ring.len_frames(), 4);
    assert_eq!(ring.total_frames(), 4);
    assert_eq!(resident(&ring), ramp(4, 2, 0));
}

#[test]
fn discards_oldest_on_overflow() {
    let mut ring = ring_of(4, 2);
    ring.push_interleaved(&ramp(6, 2, 0));
    assert!(ring.is_full());
    assert_eq!(ring.len_frames(), 4);
    assert_eq!(ring.total_frames(), 6);
    // Frames 0 and 1 are gone; 2..=5 remain, in order.
    assert_eq!(resident(&ring), ramp(4, 2, 2));
    assert_eq!(ring.oldest_frame(), 2);
}

#[test]
fn oversized_push_keeps_only_the_tail() {
    let mut ring = ring_of(3, 1);
    ring.push_interleaved(&ramp(100, 1, 0));
    assert_eq!(ring.len_frames(), 3);
    assert_eq!(ring.total_frames(), 100);
    assert_eq!(resident(&ring), ramp(3, 1, 97));
}

#[test]
fn wraps_across_the_seam_in_order() {
    let mut ring = ring_of(5, 2);
    ring.push_interleaved(&ramp(3, 2, 0));
    ring.push_interleaved(&ramp(4, 2, 3)); // wraps
    assert_eq!(ring.total_frames(), 7);
    assert_eq!(resident(&ring), ramp(5, 2, 2));
    let (a, b) = ring.slices();
    assert!(!b.is_empty(), "this case is meant to exercise the wrap");
    assert_eq!(a.len() + b.len(), 5 * 2);
}

#[test]
fn many_small_pushes_stay_consistent() {
    let mut ring = ring_of(7, 3);
    for i in 0..50 {
        ring.push_interleaved(&ramp(1, 3, i));
    }
    assert_eq!(ring.total_frames(), 50);
    assert_eq!(resident(&ring), ramp(7, 3, 43));
}

#[test]
fn silence_advances_the_timeline() {
    let mut ring = ring_of(8, 2);
    ring.push_interleaved(&ramp(2, 2, 0));
    ring.push_silence(3);
    assert_eq!(ring.total_frames(), 5);
    assert_eq!(ring.len_frames(), 5);
    let got = resident(&ring);
    assert_eq!(&got[..4], &ramp(2, 2, 0)[..]);
    assert!(got[4..].iter().all(|&s| s == 0.0));
}

#[test]
fn silence_longer_than_the_ring_still_advances_the_clock() {
    let mut ring = ring_of(4, 1);
    ring.push_interleaved(&ramp(4, 1, 0));
    ring.push_silence(1000);
    assert_eq!(ring.total_frames(), 1004);
    assert_eq!(ring.len_frames(), 4);
    assert!(resident(&ring).iter().all(|&s| s == 0.0));
    assert_eq!(ring.oldest_frame(), 1000);
}

#[test]
fn channel_iter_extracts_one_channel() {
    let mut ring = ring_of(4, 3);
    ring.push_interleaved(&ramp(6, 3, 0)); // frames 2..=5 survive
    let ch1: Vec<f32> = ring.channel_iter(1);
    assert_eq!(ch1, vec![21.0, 31.0, 41.0, 51.0]);
}

#[test]
fn copy_range_spans_the_wrap() {
    let mut ring = ring_of(5, 2);
    ring.push_interleaved(&ramp(8, 2, 0)); // frames 3..=7 resident
    let mut out = Vec::new();
    ring.copy_range(4, 3, &mut out).unwrap();
    assert_eq!(out, ramp(3, 2, 4));
}

#[test]
fn copy_range_rejects_evicted_and_future_spans() {
    let mut ring = ring_of(4, 1);
    ring.push_interleaved(&ramp(10, 1, 0)); // frames 6..=9 resident
    let mut out = Vec::new();
    assert_eq!(
        ring.copy_range(2, 2, &mut out),
        Err(RangeError::Evicted {
            requested: 2,
            oldest: 6
        })
    );
    assert_eq!(
        ring.copy_range(8, 5, &mut out),
        Err(RangeError::NotYetWritten {
            requested_end: 13,
            total: 10
        })
    );
    assert!(out.is_empty(), "failed reads must not append anything");
}

#[test]
fn copy_latest_clamps_to_what_is_resident() {
    let mut ring = ring_of(4, 2);
    ring.push_interleaved(&ramp(3, 2, 0));
    let mut out = Vec::new();
    assert_eq!(ring.copy_latest(100, &mut out), 3);
    assert_eq!(out, ramp(3, 2, 0));
}

#[test]
fn empty_push_is_a_no_op() {
    let mut ring = ring_of(4, 2);
    ring.push_interleaved(&[]);
    ring.push_silence(0);
    assert_eq!(ring.total_frames(), 0);
    assert!(ring.is_empty());
}

#[test]
fn clear_keeps_the_timeline() {
    let mut ring = ring_of(4, 1);
    ring.push_interleaved(&ramp(6, 1, 0));
    ring.clear();
    assert!(ring.is_empty());
    assert_eq!(ring.total_frames(), 6);
    assert_eq!(ring.oldest_frame(), 6);
}

#[test]
fn a_cleared_ring_goes_on_where_it_was() {
    let mut ring = ring_of(4, 1);
    ring.push_interleaved(&ramp(6, 1, 0));
    ring.clear();
    ring.push_interleaved(&ramp(2, 1, 6));
    let mut out = Vec::new();
    ring.copy_range(6, 2, &mut out).unwrap();
    assert_eq!(out, ramp(2, 1, 6));
    assert!(ring.copy_range(5, 2, &mut out).is_err());
}

#[test]
fn a_refused_range_says_where_the_ring_stands() {
    let evicted = RangeError::Evicted { requested: 2, oldest: 6 };
    assert_eq!(
        evicted.message(),
        "range starts at frame 2 but the oldest resident frame is 6"
    );
    let early = RangeError::NotYetWritten { requested_end: 13, total: 10 };
    assert_eq!(
        early.message(),
        "range ends at frame 13 but only 10 frames have been written"
    );
}

#[test]
fn silence_is_a_block_of_silent_samples() {
    for frames in [0usize, 1, 3, 5, 6, 40] {
        let mut a = ring_of(5, 2);
        let mut b = ring_of(5, 2);
        a.push_interleaved(&ramp(4, 2, 1));
        b.push_interleaved(&ramp(4, 2, 1));
        a.push_silence(frames);
        b.push_interleaved(&vec![0.0; frames * 2]);
        assert_eq!(resident(&a), resident(&b));
        assert_eq!(a.len_frames(), b.len_frames());
        assert_eq!(a.oldest_frame(), b.oldest_frame());
        assert_eq!(a.total_frames(), 4 + frames as u64);
        assert_eq!(b.total_frames(), 4 + frames as u64);
    }
}
