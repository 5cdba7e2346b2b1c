//! The shape of a stream.
use ed_compass::audio::format::{
    channel_layout, layout_name, SampleFormat, MASK_5_1, MASK_7_1, MASK_MONO, MASK_STEREO,
};
use ed_compass::audio::StreamFormat;

#[test]
fn describes_a_seven_one_stream() {
    let f = StreamFormat::new(48_000, 8, MASK_7_1, SampleFormat::F32);
    assert_eq!(f.describe(), "48000 Hz · 8 ch (7.1) · F32");
    // Eight channels, but LFE carries no bearing.
    assert_eq!(f.directional_channels(), 7);
}

#[test]
fn stereo_has_two_directional_channels() {
    let f = StreamFormat::new(44_100, 2, MASK_STEREO, SampleFormat::I16);
    assert_eq!(f.directional_channels(), 2);
    assert_eq!(f.layout_name(), "stereo");
}

#[test]
fn frame_and_second_conversions_round_trip() {
    let f = StreamFormat::new(48_000, 2, MASK_STEREO, SampleFormat::F32);
    assert_eq!(f.seconds_to_frames(150_000_000), 7_200_000);
    assert_eq!(f.frames_to_seconds(7_200_000), 150_000_000);
    assert_eq!(f.seconds_to_frames(0), 0);
}

#[test]
fn every_coding_has_a_label() {
    assert_eq!(SampleFormat::F32.label(), "F32");
    assert_eq!(SampleFormat::I16.label(), "I16");
    assert_eq!(SampleFormat::I24.label(), "I24");
    assert_eq!(SampleFormat::I32.label(), "I32");
}

#[test]
fn layouts_are_named_by_their_speakers() {
    assert_eq!(layout_name(MASK_MONO, 1), "mono");
    assert_eq!(layout_name(MASK_5_1, 6), "5.1");
    let surround = channel_layout(MASK_7_1, 8);
    assert_eq!(surround.len(), 8);
    assert!(surround[3].azimuth_deg.is_none(), "the low-frequency channel points nowhere");
}
