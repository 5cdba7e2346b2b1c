//! Which captures go when the disk is full.
use ed_compass::retention::{
    audio_bytes, budget_bytes, evictions, extension_bytes, is_capture, is_evicted, is_manual, is_manual_reason,
    mark_evicted, record_count, CaptureSweep, ExportSweep, Policy, Record,
};

/// A capture `age_secs` old, optionally one taken by hand.
fn record(name: &str, bytes: u64, age_secs: u64, manual: bool) -> Record {
    Record {
        audio: format!("{name}.flac"),
        sidecar: format!("{name}.json"),
        bytes,
        modified: (10_000 - age_secs as i64) * 1_000_000_000,
        manual,
    }
}

fn names(records: &[Record], picked: Vec<usize>) -> Vec<String> {
    picked
        .into_iter()
        .map(|i| records[i].audio.trim_end_matches(".flac").to_string())
        .collect()
}

#[test]
fn nothing_is_evicted_while_the_budget_holds() {
    let records = vec![record("a", 100, 10, false), record("b", 100, 5, false)];
    let policy = Policy { budget_bytes: 1000 };
    assert!(evictions(&records, &policy).is_empty());
}

#[test]
fn captures_of_the_same_age_are_evicted_in_a_stable_order() {
    let records = vec![
        record("old", 100, 100, false),
        record("new", 100, 1, false),
        record("keep", 100, 50, false),
    ];
    let policy = Policy { budget_bytes: 250 };
    assert_eq!(names(&records, evictions(&records, &policy)), ["old"]);
}

/// The policy, stated as a test: age decides, nothing else.
///
/// Ranking by detector score would rank by how much the software understands a recording,
/// while the whole search is for signals it cannot recognise. The lowest-scoring file on the
/// disk is what an undiscovered signal looks like.
#[test]
fn the_oldest_capture_goes_first() {
    let records = vec![
        record("newest", 100, 1, false),
        record("oldest", 100, 900, false),
        record("middle", 100, 100, false),
    ];
    let policy = Policy { budget_bytes: 250 };
    assert_eq!(names(&records, evictions(&records, &policy)), ["oldest"]);
}

/// A capture someone took by hand is a judgement the software is not in a position to
/// overrule, so it outlives every automatic one however old.
#[test]
fn a_hand_taken_capture_is_kept_while_anything_else_remains() {
    let records = vec![
        record("kept-by-hand", 100, 5000, true),
        record("auto-new", 100, 1, false),
        record("auto-old", 100, 50, false),
    ];
    let policy = Policy { budget_bytes: 150 };
    assert_eq!(
        names(&records, evictions(&records, &policy)),
        ["auto-old", "auto-new"],
        "the oldest automatic goes first, and the hand-taken one is untouched"
    );
}

/// But protection has to yield eventually, or an unattended session fills the drive and a
/// budget is not a budget.
#[test]
fn hand_taken_captures_yield_rather_than_overrunning_the_budget() {
    let records = vec![
        record("hand-old", 100, 900, true),
        record("hand-new", 100, 10, true),
    ];
    let policy = Policy { budget_bytes: 150 };
    assert_eq!(
        names(&records, evictions(&records, &policy)),
        ["hand-old"],
        "oldest first even among hand-taken captures"
    );
}

#[test]
fn equal_ages_leave_in_the_order_they_are_listed() {
    let records = vec![
        record("first", 100, 10, false),
        record("second", 100, 10, false),
        record("third", 100, 10, false),
    ];
    let policy = Policy { budget_bytes: 100 };
    assert_eq!(names(&records, evictions(&records, &policy)), ["first", "second"]);
}

#[test]
fn audio_is_deleted_but_the_record_is_kept_and_marked() {
    let records = vec![record("weak", 4096, 20, false), record("strong", 4096, 10, false)];
    let doomed = evictions(&records, &Policy { budget_bytes: 4096 });
    assert_eq!(doomed.iter().map(|&i| records[i].bytes).sum::<u64>(), 4096);
    assert_eq!(names(&records, doomed), ["weak"]);

    // The measurement survives its recording.
    let sidecar = "{\"audio_file\": \"weak.flac\", \"score\": 0.1, \"star_system\": \"Orrere\"}";
    let marked = mark_evicted(sidecar).unwrap();
    let kept: serde_json::Value = serde_json::from_str(&marked).unwrap();
    assert_eq!(
        kept["star_system"], "Orrere",
        "the observation must survive"
    );
    assert_eq!(
        kept["audio_evicted"], true,
        "and must say the audio is gone"
    );
    let strong: serde_json::Value = serde_json::from_str(sidecar).unwrap();
    assert!(
        strong.get("audio_evicted").is_none(),
        "untouched records stay untouched"
    );
}

#[test]
fn a_sidecar_that_is_no_record_is_left_alone() {
    assert_eq!(mark_evicted("not json"), None);
    assert_eq!(mark_evicted("[1, 2]"), None);
    assert_eq!(mark_evicted("\"text\""), None);
}

#[test]
fn a_mark_is_set_once_however_often() {
    let once = mark_evicted("{\"audio_evicted\": false, \"reason\": \"manual\"}").unwrap();
    assert!(is_manual(&once));
    assert_eq!(mark_evicted(&once).unwrap(), once);
}

#[test]
fn a_sidecar_says_whether_it_was_taken_by_hand() {
    assert!(is_manual("{\"reason\": \"manual\"}"));
    assert!(!is_manual("{\"reason\": \"novelty\"}"));
    assert!(!is_manual("{\"reason\": 3}"));
    assert!(!is_manual("{}"));
    assert!(!is_manual("manual"));
    assert!(is_manual_reason(&Some("manual".to_string())));
    assert!(!is_manual_reason(&Some("keying".to_string())));
    assert!(!is_manual_reason(&None));
}

#[test]
fn a_scan_ignores_sidecars_whose_audio_has_already_gone() {
    assert!(!is_capture("json"), "a sidecar alone is no capture");
    assert!(is_capture("wav"));
    assert!(is_capture("flac"));
    let records = vec![Record {
        audio: "here.wav".to_string(),
        sidecar: "here.json".to_string(),
        bytes: 10,
        modified: 0,
        manual: false,
    }];
    assert_eq!(audio_bytes(&records), 10);
}

#[test]
fn exports_are_trimmed_oldest_first() {
    let files = [(3i64, 1000u64), (1, 1000), (2, 1000)];
    let mut sweep = ExportSweep::new(&files, 2500);
    let mut gone = Vec::new();
    while let Some(i) = sweep.next() {
        gone.push(i);
        sweep.report(true);
    }
    assert_eq!(gone, vec![1], "the oldest, and no more than it takes");
    assert!(sweep.freed() >= 1000, "something must have been reclaimed");
}

#[test]
fn an_export_that_cannot_be_removed_is_passed_over() {
    let files = [(1i64, 1000u64), (2, 1000), (3, 1000)];
    let mut sweep = ExportSweep::new(&files, 2500);
    assert_eq!(sweep.next(), Some(0));
    sweep.report(false);
    assert_eq!(sweep.next(), Some(1), "the next oldest is tried instead");
    sweep.report(true);
    assert_eq!(sweep.next(), None);
    assert_eq!(sweep.freed(), 1000);
}

#[test]
fn a_sweep_of_exports_removes_no_more_than_it_takes() {
    let files = [(40i64, 700u64), (10, 100), (30, 500), (20, 300)];
    let mut sweep = ExportSweep::new(&files, 1250);
    let mut gone = Vec::new();
    while let Some(i) = sweep.next() {
        gone.push(i);
        sweep.report(true);
    }
    // 1600 bytes: without the two oldest 1200 are left, with the second of them 1500.
    assert_eq!(gone, vec![1, 3]);
    assert_eq!(sweep.freed(), 400);
}

#[test]
fn a_sweep_of_captures_lets_the_condemned_go() {
    let records = vec![
        record("hand", 400, 900, true),
        record("newest", 200, 1, false),
        record("oldest", 100, 800, false),
        record("older", 300, 700, false),
    ];
    let policy = Policy { budget_bytes: 650 };
    let mut sweep = CaptureSweep::new(&records, &policy);
    let mut gone = Vec::new();
    while let Some(i) = sweep.next() {
        gone.push(i);
        sweep.report(true);
    }
    assert_eq!(gone, vec![2, 3]);
    assert_eq!(gone, evictions(&records, &policy));
    assert_eq!(sweep.freed(), 400);
}

#[test]
fn audio_that_cannot_be_deleted_frees_nothing() {
    let records = vec![
        record("older", 100, 20, false),
        record("newer", 300, 10, false),
    ];
    let policy = Policy { budget_bytes: 50 };
    let mut sweep = CaptureSweep::new(&records, &policy);
    assert_eq!(sweep.next(), Some(0));
    sweep.report(false);
    assert_eq!(sweep.freed(), 0);
    assert_eq!(sweep.next(), Some(1));
    sweep.report(true);
    assert_eq!(sweep.freed(), 300);
    assert_eq!(sweep.next(), None);
}

#[test]
fn budgets_are_given_in_mebibytes() {
    assert_eq!(budget_bytes(512), 512 * 1_048_576);
    assert_eq!(budget_bytes(u64::MAX), u64::MAX);
}

#[test]
fn no_export_budget_means_no_sweep() {
    let files = [(1i64, 1000u64)];
    assert_eq!(ExportSweep::new(&files, 0).next(), None);
}

/// The two readout helpers feed the disk bar and the observation count.
#[test]
fn the_disk_readout_counts_the_right_files() {
    let listed = |name: &str, bytes: u64| (name.to_string(), bytes);
    let files = [
        listed("png", 1000),
        listed("png", 2500),
        // Other extensions must not be counted as exports.
        listed("flac", 9999),
        listed("json", 2),
        listed("json", 2),
    ];
    assert_eq!(
        extension_bytes(&files, "png"),
        3500,
        "only the PNGs, and their real sizes"
    );
    assert_eq!(extension_bytes(&files, "flac"), 9999);
    assert_eq!(extension_bytes(&files, "wav"), 0, "nothing of that kind here");

    // Sidecars are the observations, and outlive their audio.
    assert_eq!(record_count(&files), 2, "two JSON records");

    // Nothing at all is empty, not a panic.
    assert_eq!(extension_bytes(&[], "png"), 0);
    assert_eq!(record_count(&[]), 0);
}

#[test]
fn a_marked_record_keeps_what_it_held() {
    let sidecar = "{\"reason\": \"manual\", \"note\": \"a \\\"quoted\\\" line\", \"gap\": false}";
    assert_eq!(is_evicted(sidecar), Some(false));
    let marked = mark_evicted(sidecar).unwrap();
    assert_eq!(is_evicted(&marked), Some(true));
    assert!(is_manual(&marked), "still taken by hand");
    let kept: serde_json::Value = serde_json::from_str(&marked).unwrap();
    assert_eq!(kept["note"], "a \"quoted\" line");
    assert_eq!(kept["gap"], false);
}

#[test]
fn a_sidecar_says_whether_its_audio_is_gone() {
    assert_eq!(is_evicted("{\"audio_evicted\": true}"), Some(true));
    assert_eq!(is_evicted("{\"audio_evicted\": false}"), Some(false));
    assert_eq!(is_evicted("{\"audio_evicted\": \"true\"}"), Some(false));
    assert_eq!(is_evicted("[]"), Some(false));
    assert_eq!(is_evicted("{"), None);
}
