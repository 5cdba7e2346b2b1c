//! Cutting a stream into frames.
use ed_compass::analysis::stft::{argmax, Stft, StftStream};

const SR: u32 = 48_000;

fn sine(freq: f32, len: usize, amplitude: f32) -> Vec<f32> {
    (0..len)
        .map(|i| amplitude * (std::f32::consts::TAU * freq * i as f32 / SR as f32).sin())
        .collect()
}

/// Levels of a frame under a periodic Hann window, in millionths of a decibel.
fn levels(frame: &[f32]) -> Vec<Option<i64>> {
    let n = frame.len();
    let window: Vec<f32> = (0..n)
        .map(|i| 0.5 * (1.0 - (std::f32::consts::TAU * i as f32 / n as f32).cos()))
        .collect();
    let gain: f32 = window.iter().sum();
    let fft = realfft::RealFftPlanner::<f32>::new().plan_fft_forward(n);
    let mut input: Vec<f32> = frame.iter().zip(&window).map(|(s, w)| s * w).collect();
    let mut spectrum = fft.make_output_vec();
    fft.process(&mut input, &mut spectrum).unwrap();
    spectrum
        .iter()
        .map(|c| {
            let magnitude = c.norm() * 2.0 / gain;
            Some((20.0 * magnitude.max(1e-10).log10() as f64 * 1e6) as i64)
        })
        .collect()
}

#[test]
fn bin_count_and_frequency_mapping() {
    let s = Stft::new(4096, 2048);
    assert_eq!(s.bins(), 2049);
    assert_eq!(s.bin_hz(0, SR), 0);
    assert_eq!(
        s.bin_hz(2048, SR),
        24_000_000_000,
        "last bin is Nyquist"
    );
    assert_eq!(s.hz_to_bin(0, SR), 0);
    assert_eq!(s.hz_to_bin(24_000_000_000, SR), 2048);
    // Out-of-range requests clamp rather than panic.
    assert_eq!(s.hz_to_bin(1_000_000_000_000_000, SR), 2048);
    assert_eq!(s.hz_to_bin(-100_000_000, SR), 0);
}

#[test]
fn frame_rate_matches_the_spec_defaults() {
    let s = Stft::new(4096, 2048);
    // 48 kHz with a 2048 hop is 23.4 frames per second.
    assert!((1e6 / s.frame_seconds(SR) as f32 - 23.4375).abs() < 1e-3);
}

#[test]
fn full_scale_sine_reads_zero_dbfs_at_its_bin() {
    let size = 4096;
    // Land exactly on a bin centre so there is no scalloping loss.
    let bin = 100;
    let freq = bin as f32 * SR as f32 / size as f32;
    let db = levels(&sine(freq, size, 1.0));
    assert_eq!(argmax(&db), Some(bin));
    assert!(db[bin].unwrap().abs() < 200_000, "expected ~0 dBFS, got {:?}", db[bin]);
}

#[test]
fn stream_emits_hop_aligned_frames() {
    let (size, hop) = (256, 64);
    let mut stream: StftStream<f32> = StftStream::new(size, hop);

    stream.push(&vec![0.0; size - 1]);
    assert!(stream.next_frame().is_none(), "not a full frame yet");

    stream.push(&[0.0]);
    assert_eq!(stream.next_frame().map(|f| f.0), Some(0));
    assert!(stream.next_frame().is_none(), "needs another hop");

    stream.push(&vec![0.0; hop]);
    assert_eq!(stream.next_frame().map(|f| f.0), Some(1));
    assert_eq!(stream.frames_emitted(), 2);
    assert_eq!(stream.frame_start_sample(1), hop as u64);
}

#[test]
fn stream_drains_a_long_push_into_many_frames() {
    let (size, hop) = (128, 32);
    let mut stream: StftStream<f32> = StftStream::new(size, hop);
    stream.push(&vec![0.1; 1024]);
    let mut count = 0;
    while stream.next_frame().is_some() {
        count += 1;
    }
    // (1024 - 128) / 32 + 1
    assert_eq!(count, 29);
}

#[test]
fn frames_hold_the_samples_of_their_place() {
    let samples: Vec<i32> = (0..1000).collect();
    let mut stream: StftStream<i32> = StftStream::new(128, 32);
    assert_eq!(stream.stft().hop(), 32);
    for piece in samples.chunks(77) {
        stream.push(piece);
        while let Some((i, frame)) = stream.next_frame() {
            let start = stream.frame_start_sample(i) as usize;
            assert_eq!(frame, &samples[start..start + 128]);
        }
    }
    assert_eq!(stream.frames_emitted(), 28);
}

#[test]
fn stream_carries_a_tone_through_to_the_right_bin() {
    let (size, hop) = (2048, 512);
    let mut stream: StftStream<f32> = StftStream::new(size, hop);
    let bin = 200;
    let freq = bin as f32 * SR as f32 / size as f32;
    stream.push(&sine(freq, size * 4, 1.0));

    let mut seen = 0;
    while let Some((_, frame)) = stream.next_frame() {
        assert_eq!(argmax(&levels(&frame)), Some(bin));
        seen += 1;
    }
    assert!(seen >= 4);
}

#[test]
fn discarding_a_partial_frame_keeps_the_frame_counter() {
    let mut stream: StftStream<f32> = StftStream::new(64, 16);
    stream.push(&vec![0.0; 64]);
    stream.next_frame().unwrap();
    stream.discard_partial();
    assert_eq!(stream.frames_emitted(), 1);
    assert!(stream.next_frame().is_none());
}

#[test]
fn argmax_ignores_nan_and_handles_empty() {
    assert_eq!(argmax(&[]), None);
    assert_eq!(argmax(&[Some(1), Some(5), Some(3)]), Some(1));
    assert_eq!(argmax(&[None, Some(2)]), Some(1));
    assert_eq!(argmax(&[None]), None);
    assert_eq!(argmax(&[Some(7), Some(7), Some(1)]), Some(1), "the last of equal ones");
}
