//! Reading and replaying recordings.
use ed_compass::audio::file_input::{
    container, file_sample_format, load, load_flac, load_wav, recording, Container, FileSource,
    Header, LoadError,
};
use ed_compass::audio::format::SampleFormat;
use ed_compass::audio::StreamFormat;
use std::io::Cursor;

/// Sample c of frame i is i * 10 + c thousandths.
fn ramp(channels: u16, frames: usize) -> Vec<f32> {
    let mut samples = Vec::new();
    for i in 0..frames {
        for c in 0..channels {
            samples.push((i * 10 + c as usize) as f32 / 1000.0);
        }
    }
    samples
}

fn source(channels: u16, sample_rate: u32, frames: usize) -> FileSource<f32> {
    FileSource::new(
        ramp(channels, frames),
        StreamFormat::new(sample_rate, channels as usize, 0, SampleFormat::F32),
    )
}

fn wav(channels: u16, sample_rate: u32, bits: u16, codes: &[i32]) -> Vec<u8> {
    let spec = hound::WavSpec {
        channels,
        sample_rate,
        bits_per_sample: bits,
        sample_format: hound::SampleFormat::Int,
    };
    let mut bytes = Cursor::new(Vec::new());
    let mut w = hound::WavWriter::new(&mut bytes, spec).unwrap();
    for &c in codes {
        w.write_sample(c).unwrap();
    }
    w.finalize().unwrap();
    bytes.into_inner()
}

fn crc8(data: &[u8]) -> u8 {
    let mut crc = 0u8;
    for &b in data {
        crc ^= b;
        for _ in 0..8 {
            crc = if crc & 0x80 != 0 { (crc << 1) ^ 0x07 } else { crc << 1 };
        }
    }
    crc
}

fn crc16(data: &[u8]) -> u16 {
    let mut crc = 0u16;
    for &b in data {
        crc ^= (b as u16) << 8;
        for _ in 0..8 {
            crc = if crc & 0x8000 != 0 { (crc << 1) ^ 0x8005 } else { crc << 1 };
        }
    }
    crc
}

/// A FLAC stream of one verbatim frame of 16-bit mono at 44.1 kHz.
fn flac(codes: &[i16]) -> Vec<u8> {
    let mut out = b"fLaC".to_vec();
    out.extend([0x80, 0, 0, 34]);
    out.extend([0x00, 0x10, 0x10, 0x00]); // block sizes
    out.extend([0u8; 6]); // frame sizes unknown
    let rate = 44_100u32;
    out.extend([(rate >> 12) as u8, (rate >> 4) as u8, ((rate << 4) as u8 & 0xf0), 0xf0]);
    out.extend((codes.len() as u32).to_be_bytes());
    out.extend([0u8; 16]);
    if !codes.is_empty() {
        let mut frame = vec![0xff, 0xf8, 0x69, 0x08, 0x00, (codes.len() - 1) as u8];
        let check = crc8(&frame);
        frame.push(check);
        frame.push(0x02); // verbatim
        for c in codes {
            frame.extend(c.to_be_bytes());
        }
        let check = crc16(&frame);
        frame.extend(check.to_be_bytes());
        out.extend(frame);
    }
    out
}

#[test]
fn loads_a_float_wav_and_reports_its_shape() {
    let source = source(2, 48_000, 4800);
    assert_eq!(source.format().channels, 2);
    assert_eq!(source.format().sample_rate, 48_000);
    assert_eq!(source.format().sample_format, SampleFormat::F32);
    assert_eq!(source.total_frames(), 4800);
    assert_eq!(source.duration_seconds(), 100_000);

    // Fractions are told apart from whole codes.
    let spec = hound::WavSpec {
        channels: 2,
        sample_rate: 48_000,
        bits_per_sample: 32,
        sample_format: hound::SampleFormat::Float,
    };
    let mut bytes = Cursor::new(Vec::new());
    let mut w = hound::WavWriter::new(&mut bytes, spec).unwrap();
    for s in ramp(2, 4800) {
        w.write_sample(s).unwrap();
    }
    w.finalize().unwrap();
    assert_eq!(load_wav(&bytes.into_inner()).err(), Some(LoadError::Fractional));
    assert_eq!(file_sample_format(true, 32), SampleFormat::F32);
}

#[test]
fn loads_an_integer_wav_normalized_to_unit_range() {
    let codes = [i16::MIN as i32, 0, i16::MAX as i32];
    let mut made = load("wav", &wav(1, 44_100, 16, &codes)).unwrap();
    assert_eq!(made.source.format().sample_format, SampleFormat::I16);
    assert_eq!(made.source.format().sample_rate, 44_100);
    let mut out = Vec::new();
    assert_eq!(made.source.render(3, &mut out), 3);
    let unit: Vec<f32> = out.iter().map(|&c| c as f32 / made.full_scale as f32).collect();
    assert!((unit[0] + 1.0).abs() < 1e-6);
    assert!(unit[1].abs() < 1e-6);
    assert!(unit[2] > 0.999 && unit[2] <= 1.0);
    assert_eq!(out, codes);
}

#[test]
fn every_width_of_code_has_its_own_full_scale() {
    for (bits, scale, coding) in [
        (8u16, 128u64, SampleFormat::I32),
        (16, 32_768, SampleFormat::I16),
        (24, 8_388_608, SampleFormat::I24),
        (32, 2_147_483_648, SampleFormat::I32),
    ] {
        let made = load_wav(&wav(2, 8_000, bits, &[1, -1, 2, -2])).unwrap();
        assert_eq!(made.full_scale, scale);
        assert_eq!(made.source.format().sample_format, coding);
        assert_eq!(made.source.total_frames(), 2);
    }
}

#[test]
fn loads_a_flac_stream() {
    let codes = [0i16, 1000, -1000, i16::MIN, i16::MAX, 5, 6, 7, 8, 9, 10, 11, 12, 13, 14, 15];
    let mut made = load("FLAC", &flac(&codes)).unwrap();
    assert_eq!(made.source.format().channels, 1);
    assert_eq!(made.source.format().sample_rate, 44_100);
    assert_eq!(made.source.format().sample_format, SampleFormat::I16);
    assert_eq!(made.full_scale, 32_768);
    let mut out = Vec::new();
    assert_eq!(made.source.render(100, &mut out), 16);
    assert_eq!(out, codes.map(|c| c as i32));
}

#[test]
fn rendering_walks_the_file_and_then_stops() {
    let mut source = source(2, 8_000, 100);

    let mut out = Vec::new();
    assert_eq!(source.render(60, &mut out), 60);
    assert_eq!(out.len(), 120);
    assert!(!source.is_finished());

    out.clear();
    assert_eq!(source.render(60, &mut out), 40, "clamped to what remains");
    assert!(source.is_finished());

    out.clear();
    assert_eq!(source.render(10, &mut out), 0);
    assert!(out.is_empty());
}

#[test]
fn looping_replays_from_the_start() {
    let mut source = source(1, 8_000, 10);
    source.set_looping(true);

    let mut out = Vec::new();
    assert_eq!(source.render(25, &mut out), 25);
    assert_eq!(out.len(), 25);
    assert!(!source.is_finished(), "a looping source never finishes");
    // Frame 0 of each pass carries the same value.
    assert_eq!(out[0], out[10]);
    assert_eq!(out[0], out[20]);
}

#[test]
fn interleaving_is_preserved() {
    let mut source = source(3, 8_000, 4);
    let mut out = Vec::new();
    source.render(4, &mut out);
    // Frame 1: channels 0,1,2 => 10, 11, 12 (scaled).
    assert!((out[3] - 0.010).abs() < 1e-6);
    assert!((out[4] - 0.011).abs() < 1e-6);
    assert!((out[5] - 0.012).abs() < 1e-6);
}

#[test]
fn renders_in_pieces_add_up() {
    let mut whole = Vec::new();
    let mut one = source(2, 8_000, 7);
    one.set_looping(true);
    one.render(20, &mut whole);
    let mut pieces = Vec::new();
    let mut other = source(2, 8_000, 7);
    other.set_looping(true);
    for n in [1, 6, 2, 11] {
        other.render(n, &mut pieces);
    }
    assert_eq!(whole, pieces);
}

#[test]
fn unsupported_and_missing_files_fail_with_a_clear_message() {
    assert_eq!(load("mp3", &[]).err(), Some(LoadError::Unsupported));
    assert_eq!(load("", &[]).err(), Some(LoadError::Unsupported));
    assert_eq!(container("WAVE"), Some(Container::Wav));
    assert_eq!(container("Flac"), Some(Container::Flac));
    assert_eq!(load("wav", &[]).err(), Some(LoadError::Unreadable));
    assert_eq!(load("flac", b"fLaX").err(), Some(LoadError::Unreadable));
}

#[test]
fn an_empty_file_is_rejected_rather_than_analyzed() {
    assert_eq!(load_wav(&wav(2, 8_000, 16, &[])).err(), Some(LoadError::NoAudio));
    assert_eq!(load_flac(&flac(&[])).err(), Some(LoadError::NoAudio));
}

#[test]
fn a_damaged_file_is_undecodable() {
    let mut cut = wav(1, 8_000, 16, &[1, 2, 3, 4]);
    cut.truncate(cut.len() - 3);
    assert_eq!(load_wav(&cut).err(), Some(LoadError::Undecodable));
    let mut broken = flac(&[7; 16]);
    let last = broken.len() - 1;
    broken[last] ^= 1;
    assert_eq!(load_flac(&broken).err(), Some(LoadError::Undecodable));
}

#[test]
fn a_header_without_channels_makes_no_recording() {
    let header = Header { channels: 0, sample_rate: 8_000, bits: 16, float: false };
    assert_eq!(recording(Some(header), Some(vec![1])).err(), Some(LoadError::ZeroChannels));
    let wide = Header { channels: 1, bits: 40, ..header };
    assert_eq!(recording(Some(wide), Some(vec![1])).err(), Some(LoadError::Undecodable));
}
