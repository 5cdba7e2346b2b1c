//! Choosing the endpoint to listen to.
use ed_compass::audio::device::{select, AudioDevice, DeviceKind};

fn devices() -> Vec<AudioDevice> {
    vec![
        AudioDevice {
            id: "mic".into(),
            name: "Microphone".into(),
            kind: DeviceKind::Capture,
            is_default: true,
        },
        AudioDevice {
            id: "spk".into(),
            name: "Speakers (Realtek)".into(),
            kind: DeviceKind::RenderLoopback,
            is_default: true,
        },
        AudioDevice {
            id: "hdmi".into(),
            name: "HDMI Output".into(),
            kind: DeviceKind::RenderLoopback,
            is_default: false,
        },
    ]
}

#[test]
fn loopback_devices_are_tagged_in_the_picker() {
    let d = devices();
    assert_eq!(
        d[1].display_name(),
        "Speakers (Realtek) [LOOPBACK] (default)"
    );
    assert_eq!(d[2].display_name(), "HDMI Output [LOOPBACK]");
    assert_eq!(d[0].display_name(), "Microphone (default)");
}

#[test]
fn an_empty_id_selects_the_default_output() {
    // System audio is the point of the tool, so the fallback is loopback, not the default
    // microphone.
    let d = devices();
    assert_eq!(select(&d, "").unwrap().id, "spk");
}

#[test]
fn a_configured_id_is_honoured() {
    let d = devices();
    assert_eq!(select(&d, "hdmi").unwrap().id, "hdmi");
    assert_eq!(select(&d, "mic").unwrap().id, "mic");
}

#[test]
fn a_missing_device_falls_back_rather_than_failing() {
    let d = devices();
    assert_eq!(select(&d, "unplugged-usb-interface").unwrap().id, "spk");
}

#[test]
fn falls_back_to_any_loopback_when_none_is_default() {
    let d: Vec<AudioDevice> = devices()
        .into_iter()
        .map(|mut x| {
            x.is_default = false;
            x
        })
        .collect();
    assert!(select(&d, "").unwrap().kind.is_loopback());
}

#[test]
fn selecting_from_an_empty_list_yields_nothing() {
    assert!(select(&[], "").is_none());
    assert!(select(&[], "anything").is_none());
}

#[test]
fn capture_only_machines_still_select_something() {
    let only_capture = vec![AudioDevice {
        id: "mic".into(),
        name: "Microphone".into(),
        kind: DeviceKind::Capture,
        is_default: true,
    }];
    assert_eq!(select(&only_capture, "").unwrap().id, "mic");
}
