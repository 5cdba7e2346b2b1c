//! User configuration: its defaults, and which values are acceptable.
//!
//! Settings that are not whole numbers are held in millionths: of a second, of a
//! hertz, of a decibel, of a pixel, or of one.
use crate::arith::ONE;
use vstd::prelude::*;

verus! {

/// A band of frequencies that novelty detection leaves alone.
#[derive(Clone, Copy, Debug, PartialEq, Eq, Structural)]
pub struct IgnoreBand {
    pub low_hz: i64,
    pub high_hz: i64,
}

impl IgnoreBand {
    pub open spec fn holds(&self, hz: int) -> bool {
        self.low_hz <= hz <= self.high_hz
    }

    pub fn contains(&self, hz: i64) -> (r: bool)
        ensures
            r == self.holds(hz as int),
    {
        hz >= self.low_hz && hz <= self.high_hz
    }
}

/// Bumped when the overlay layout changes shape, not when it gains options.
///
/// 2: indicators moved to a left-hand column with the spectrogram filling the full
///    height, anchored to the game window's top-left corner.
pub const OVERLAY_LAYOUT_REVISION: u32 = 2;

#[derive(Debug)]
pub struct Config {
    /// Endpoint id, or empty for the default render endpoint in loopback mode.
    pub device: String,
    /// Raw multichannel PCM retained in memory.
    pub pcm_ring_seconds: i64,
    pub fft_size: usize,
    pub hop: usize,
    pub waterfall_seconds: i64,
    /// Lowest and highest frequency drawn on the log spectrogram axis.
    pub spectrogram_min_hz: i64,
    pub spectrogram_max_hz: i64,
    /// Lowest and highest frequency the detectors look at. Kept separate from the
    /// display band: you may want to look at a wide spectrum while the detectors
    /// concentrate on where signals actually live.
    pub detect_min_hz: i64,
    pub detect_max_hz: i64,
    /// Subtract each frequency row's median from the rendered spectrogram.
    pub spectrogram_median_subtract: bool,
    /// Show the background-subtracted spectrogram rather than raw level.
    pub spectrogram_show_excess: bool,
    pub longterm_fps: i64,
    pub longterm_bands: usize,
    pub histogram_bins: usize,
    pub analysis_update_hz: i64,
    /// Trailing window the signal-health readouts cover.
    pub health_window_seconds: i64,
    /// Estimate a bearing from inter-channel differences.
    pub direction_finding: bool,
    /// Detect binary keying: alternation between a small set of discrete tones.
    pub detect_keying: bool,
    /// Detect drawn structure in the spectrogram.
    pub detect_structure: bool,
    /// Keying confidence at or above which a transmission is reported present.
    pub keying_threshold: i64,
    /// Ignore candidate keying tones below this frequency.
    pub keying_min_hz: i64,
    /// Structure score at or above which a drawing is reported present.
    pub structure_threshold: i64,
    /// How much audio to keep when a primary detector fires.
    pub detector_capture_seconds: i64,
    /// Which view to open in: "full" or "compact".
    pub view: String,
    /// Overlay position as fractions of the game window.
    pub overlay_x_fraction: i64,
    pub overlay_y_fraction: i64,
    pub overlay_width: i64,
    pub overlay_height: i64,
    /// Show the in-game overlay when Elite has focus.
    pub overlay_enabled: bool,
    /// Which generation of the overlay layout the saved geometry belongs to.
    pub overlay_layout_revision: u32,
    /// Draw a spectrogram beside the overlay lamps, at full overlay height.
    pub overlay_spectrogram: bool,
    /// Share of the overlay width taken by the indicator column on the left.
    pub overlay_label_fraction: i64,
    /// Seconds of history the overlay spectrogram covers.
    pub overlay_spectrogram_seconds: i64,
    /// Where exported spectrogram images are written.
    pub export_dir: Option<String>,
    pub export_width: usize,
    /// Scale the export height so stroke angles match the community's published
    /// spectrograms, which span 20 Hz to 22050 Hz.
    pub export_match_published_aspect: bool,
    pub export_height: usize,
    pub novelty_threshold_db: i64,
    pub background_time_constant_seconds: i64,
    /// How long a bin may stay above its background before the model adapts anyway.
    pub background_max_freeze_seconds: i64,
    pub min_event_seconds: i64,
    /// How long an event may drop below threshold before it is considered over.
    pub event_gap_tolerance_seconds: i64,
    pub trigger_score: i64,
    pub ignore_bands: Vec<IgnoreBand>,
    pub capture_pre_roll_seconds: i64,
    pub capture_post_roll_seconds: i64,
    pub capture_cooldown_seconds: i64,
    pub max_captures_per_hour: u32,
    pub disk_budget_mb: u64,
    /// How many of the best captures are held back from eviction.
    pub protect_best_captures: usize,
    /// Budget for exported spectrogram images.
    pub export_budget_mb: u64,
    /// Container for captured audio: "flac" or "wav".
    pub capture_format: String,
    pub journal_enabled: bool,
    /// Empty means the default location.
    pub journal_path: String,
}

/// Why a configuration is refused.
#[derive(Clone, Copy, Debug, PartialEq, Eq, Structural)]
pub enum ConfigError {
    FftTooSmall,
    FftNotPowerOfTwo,
    HopOutOfRange,
    NoPcmRing,
    TooFewHistogramBins,
    NarrowSpectrogramBand,
    NarrowDetectBand,
    TooFewLongtermBands,
    NoLongtermRate,
    NoUpdateRate,
    NoHealthWindow,
    UnknownCaptureFormat,
    UnknownView,
    OverlayTooSmall,
    LabelFractionOutOfRange,
    NoOverlayHistory,
    NoTimeConstant,
    FreezeTooShort,
    /// The ignore band at this place has its ends the wrong way round.
    InvertedIgnoreBand(usize),
}

/// `n` is a power of two.
pub open spec fn power_of_two(n: int) -> bool
    decreases n,
{
    n == 1 || (n > 1 && n % 2 == 0 && power_of_two(n / 2))
}

fn is_power_of_two(n: usize) -> (r: bool)
    ensures
        r == power_of_two(n as int),
{
    let mut m: usize = n;
    while m > 1 && m % 2 == 0
        invariant
            power_of_two(n as int) == power_of_two(m as int),
        decreases m,
    {
        m = m / 2;
    }
    m == 1
}

impl Default for Config {
    fn default() -> (r: Self)
        ensures
            r.is_default(),
    {
        Config {
            device: String::new(),
            pcm_ring_seconds: 150_000_000,
            fft_size: 4096,
            hop: 2048,
            waterfall_seconds: 140_000_000,
            spectrogram_min_hz: 200_000_000,
            spectrogram_max_hz: 2_400_000_000,
            spectrogram_median_subtract: true,
            spectrogram_show_excess: false,
            detect_min_hz: 180_000_000,
            detect_max_hz: 2_600_000_000,
            longterm_fps: 1_000_000,
            longterm_bands: 256,
            histogram_bins: 100,
            analysis_update_hz: 10_000_000,
            health_window_seconds: 2_000_000,
            direction_finding: false,
            detect_keying: true,
            detect_structure: true,
            keying_threshold: 750_000,
            keying_min_hz: 400_000_000,
            structure_threshold: 350_000,
            detector_capture_seconds: 130_000_000,
            view: "compact".to_owned(),
            overlay_enabled: true,
            overlay_layout_revision: OVERLAY_LAYOUT_REVISION,
            overlay_x_fraction: 0,
            overlay_y_fraction: 0,
            overlay_width: 440_000_000,
            overlay_height: 104_000_000,
            overlay_spectrogram: true,
            overlay_label_fraction: 340_000,
            overlay_spectrogram_seconds: 140_000_000,
            export_dir: None,
            export_width: 8192,
            export_match_published_aspect: true,
            export_height: 1600,
            novelty_threshold_db: 8_000_000,
            background_time_constant_seconds: 60_000_000,
            background_max_freeze_seconds: 300_000_000,
            min_event_seconds: 2_000_000,
            event_gap_tolerance_seconds: 1_000_000,
            trigger_score: 600_000,
            ignore_bands: Vec::new(),
            capture_pre_roll_seconds: 30_000_000,
            capture_post_roll_seconds: 15_000_000,
            capture_cooldown_seconds: 60_000_000,
            max_captures_per_hour: 10,
            disk_budget_mb: 2048,
            protect_best_captures: 20,
            export_budget_mb: 512,
            capture_format: "flac".to_owned(),
            journal_enabled: true,
            journal_path: String::new(),
        }
    }
}

impl Config {
    /// These are the settings the program ships with.
    pub open spec fn is_default(&self) -> bool {
        &&& self.device@ == Seq::<char>::empty()
        &&& self.pcm_ring_seconds == 150 * ONE
        &&& self.fft_size == 4096
        &&& self.hop == 2048
        &&& self.waterfall_seconds == 140 * ONE
        &&& self.spectrogram_min_hz == 200 * ONE
        &&& self.spectrogram_max_hz == 2_400 * ONE
        &&& self.spectrogram_median_subtract
        &&& !self.spectrogram_show_excess
        &&& self.detect_min_hz == 180 * ONE
        &&& self.detect_max_hz == 2_600 * ONE
        &&& self.longterm_fps == ONE
        &&& self.longterm_bands == 256
        &&& self.histogram_bins == 100
        &&& self.analysis_update_hz == 10 * ONE
        &&& self.health_window_seconds == 2 * ONE
        &&& !self.direction_finding
        &&& self.detect_keying
        &&& self.detect_structure
        &&& self.keying_threshold == 750_000
        &&& self.keying_min_hz == 400 * ONE
        &&& self.structure_threshold == 350_000
        &&& self.detector_capture_seconds == 130 * ONE
        &&& self.view@ == "compact"@
        &&& self.overlay_enabled
        &&& self.overlay_layout_revision == OVERLAY_LAYOUT_REVISION
        &&& self.has_default_geometry()
        &&& self.overlay_spectrogram
        &&& self.overlay_spectrogram_seconds == 140 * ONE
        &&& self.export_dir is None
        &&& self.export_width == 8192
        &&& self.export_match_published_aspect
        &&& self.export_height == 1600
        &&& self.novelty_threshold_db == 8 * ONE
        &&& self.background_time_constant_seconds == 60 * ONE
        &&& self.background_max_freeze_seconds == 300 * ONE
        &&& self.min_event_seconds == 2 * ONE
        &&& self.event_gap_tolerance_seconds == ONE
        &&& self.trigger_score == 600_000
        &&& self.ignore_bands@ == Seq::<IgnoreBand>::empty()
        &&& self.capture_pre_roll_seconds == 30 * ONE
        &&& self.capture_post_roll_seconds == 15 * ONE
        &&& self.capture_cooldown_seconds == 60 * ONE
        &&& self.max_captures_per_hour == 10
        &&& self.disk_budget_mb == 2048
        &&& self.protect_best_captures == 20
        &&& self.export_budget_mb == 512
        &&& self.capture_format@ == "flac"@
        &&& self.journal_enabled
        &&& self.journal_path@ == Seq::<char>::empty()
    }

    /// The overlay sits hard against the top-left corner, at its shipped size: nothing
    /// of Elite's own HUD lives there.
    pub open spec fn has_default_geometry(&self) -> bool {
        &&& self.overlay_x_fraction == 0
        &&& self.overlay_y_fraction == 0
        &&& self.overlay_width == 440 * ONE
        &&& self.overlay_height == 104 * ONE
        &&& self.overlay_label_fraction == 340_000
    }

    /// Why this configuration is refused, if it is: the first of the complaints in the
    /// order of the settings.
    pub open spec fn complaint(&self) -> Option<ConfigError> {
        if self.fft_size < 64 {
            Some(ConfigError::FftTooSmall)
        } else if !power_of_two(self.fft_size as int) {
            Some(ConfigError::FftNotPowerOfTwo)
        } else if !(0 < self.hop <= self.fft_size) {
            Some(ConfigError::HopOutOfRange)
        } else if self.pcm_ring_seconds <= 0 {
            Some(ConfigError::NoPcmRing)
        } else if self.histogram_bins < 2 {
            Some(ConfigError::TooFewHistogramBins)
        } else if !(self.spectrogram_min_hz > 0 && self.spectrogram_max_hz
            > self.spectrogram_min_hz * 2) {
            Some(ConfigError::NarrowSpectrogramBand)
        } else if !(self.detect_min_hz > 0 && self.detect_max_hz * 2 > self.detect_min_hz * 3) {
            Some(ConfigError::NarrowDetectBand)
        } else if self.longterm_bands < 8 {
            Some(ConfigError::TooFewLongtermBands)
        } else if self.longterm_fps <= 0 {
            Some(ConfigError::NoLongtermRate)
        } else if self.analysis_update_hz <= 0 {
            Some(ConfigError::NoUpdateRate)
        } else if self.health_window_seconds <= 0 {
            Some(ConfigError::NoHealthWindow)
        } else if !(self.capture_format@ == "flac"@ || self.capture_format@ == "wav"@) {
            Some(ConfigError::UnknownCaptureFormat)
        } else if !(self.view@ == "full"@ || self.view@ == "compact"@) {
            Some(ConfigError::UnknownView)
        } else if !(self.overlay_width >= 80 * ONE && self.overlay_height >= 30 * ONE) {
            Some(ConfigError::OverlayTooSmall)
        } else if !(100_000 <= self.overlay_label_fraction <= 900_000) {
            Some(ConfigError::LabelFractionOutOfRange)
        } else if self.overlay_spectrogram_seconds <= 0 {
            Some(ConfigError::NoOverlayHistory)
        } else if self.background_time_constant_seconds <= 0 {
            Some(ConfigError::NoTimeConstant)
        } else if self.background_max_freeze_seconds <= self.background_time_constant_seconds {
            Some(ConfigError::FreezeTooShort)
        } else {
            first_inverted(self.ignore_bands@, 0)
        }
    }

    /// Reject values that would panic or silently misbehave downstream.
    #[verifier::loop_isolation(false)]
    pub fn validate(&self) -> (r: Result<(), ConfigError>)
        ensures
            match self.complaint() {
                None => r == Ok::<(), ConfigError>(()),
                Some(e) => r == Err::<(), ConfigError>(e),
            },
    {
        if self.fft_size < 64 {
            return Err(ConfigError::FftTooSmall);
        }
        if !is_power_of_two(self.fft_size) {
            return Err(ConfigError::FftNotPowerOfTwo);
        }
        if !(self.hop > 0 && self.hop <= self.fft_size) {
            return Err(ConfigError::HopOutOfRange);
        }
        if self.pcm_ring_seconds <= 0 {
            return Err(ConfigError::NoPcmRing);
        }
        if self.histogram_bins < 2 {
            return Err(ConfigError::TooFewHistogramBins);
        }
        if !(self.spectrogram_min_hz > 0 && self.spectrogram_max_hz as i128
            > self.spectrogram_min_hz as i128 * 2) {
            return Err(ConfigError::NarrowSpectrogramBand);
        }
        if !(self.detect_min_hz > 0 && self.detect_max_hz as i128 * 2 > self.detect_min_hz as i128
            * 3) {
            return Err(ConfigError::NarrowDetectBand);
        }
        if self.longterm_bands < 8 {
            return Err(ConfigError::TooFewLongtermBands);
        }
        if self.longterm_fps <= 0 {
            return Err(ConfigError::NoLongtermRate);
        }
        if self.analysis_update_hz <= 0 {
            return Err(ConfigError::NoUpdateRate);
        }
        if self.health_window_seconds <= 0 {
            return Err(ConfigError::NoHealthWindow);
        }
        if !(is_text(&self.capture_format, "flac") || is_text(&self.capture_format, "wav")) {
            return Err(ConfigError::UnknownCaptureFormat);
        }
        if !(is_text(&self.view, "full") || is_text(&self.view, "compact")) {
            return Err(ConfigError::UnknownView);
        }
        if !(self.overlay_width >= 80_000_000 && self.overlay_height >= 30_000_000) {
            return Err(ConfigError::OverlayTooSmall);
        }
        if !(100_000 <= self.overlay_label_fraction && self.overlay_label_fraction <= 900_000) {
            return Err(ConfigError::LabelFractionOutOfRange);
        }
        if self.overlay_spectrogram_seconds <= 0 {
            return Err(ConfigError::NoOverlayHistory);
        }
        if self.background_time_constant_seconds <= 0 {
            return Err(ConfigError::NoTimeConstant);
        }
        if self.background_max_freeze_seconds <= self.background_time_constant_seconds {
            return Err(ConfigError::FreezeTooShort);
        }
        let mut i: usize = 0;
        while i < self.ignore_bands.len()
            invariant
                i <= self.ignore_bands.len(),
                first_inverted(self.ignore_bands@, 0) == first_inverted(
                    self.ignore_bands@,
                    i as int,
                ),
            decreases self.ignore_bands.len() - i,
        {
            if self.ignore_bands[i].low_hz >= self.ignore_bands[i].high_hz {
                return Err(ConfigError::InvertedIgnoreBand(i));
            }
            i = i + 1;
        }
        Ok(())
    }

    /// Restore the overlay geometry when it was saved for an older layout.
    ///
    /// Only the geometry: everything else the file says is left alone, but that a
    /// configuration that opens straight into the overlay has nowhere to go.
    pub fn migrate_overlay_layout(&mut self)
        ensures
            old(self).overlay_layout_revision >= OVERLAY_LAYOUT_REVISION ==> *final(self) == *old(
                self,
            ),
            old(self).overlay_layout_revision < OVERLAY_LAYOUT_REVISION ==> {
                &&& final(self).has_default_geometry()
                &&& final(self).overlay_layout_revision == OVERLAY_LAYOUT_REVISION
                &&& final(self).view@ == if old(self).view@ == "overlay"@ {
                    "compact"@
                } else {
                    old(self).view@
                }
                &&& *final(self) == (Config {
                    view: final(self).view,
                    overlay_x_fraction: final(self).overlay_x_fraction,
                    overlay_y_fraction: final(self).overlay_y_fraction,
                    overlay_width: final(self).overlay_width,
                    overlay_height: final(self).overlay_height,
                    overlay_label_fraction: final(self).overlay_label_fraction,
                    overlay_layout_revision: final(self).overlay_layout_revision,
                    ..*old(self)
                })
            },
    {
        if self.overlay_layout_revision >= OVERLAY_LAYOUT_REVISION {
            return;
        }
        if is_text(&self.view, "overlay") {
            self.view = "compact".to_owned();
        }
        self.overlay_x_fraction = 0;
        self.overlay_y_fraction = 0;
        self.overlay_width = 440_000_000;
        self.overlay_height = 104_000_000;
        self.overlay_label_fraction = 340_000;
        self.overlay_layout_revision = OVERLAY_LAYOUT_REVISION;
    }

    /// Samples the raw PCM ring holds per channel: its length in seconds, rounded up
    /// to a whole number of frames.
    pub open spec fn ring_frames(&self, sample_rate: u32) -> int {
        if self.pcm_ring_seconds <= 0 {
            0
        } else {
            (self.pcm_ring_seconds * sample_rate + ONE - 1) / (ONE as int)
        }
    }

    /// Bytes held by the raw PCM ring for a given stream shape, at four bytes a sample.
    pub fn pcm_ring_bytes(&self, sample_rate: u32, channels: usize) -> (r: usize)
        requires
            self.ring_frames(sample_rate) * channels * 4 <= usize::MAX,
        ensures
            r == self.ring_frames(sample_rate) * channels * 4,
    {
        if self.pcm_ring_seconds <= 0 {
            assert(0 * channels == 0);
            return 0;
        }
        proof {
            let s = self.pcm_ring_seconds as int;
            assert(0 <= s * sample_rate <= 0x8000_0000_0000_0000 * 0x1_0000_0000) by (nonlinear_arith)
                requires
                    0 <= s <= 0x8000_0000_0000_0000,
                    0 <= sample_rate <= 0x1_0000_0000,
            ;
        }
        let frames: u128 = (self.pcm_ring_seconds as u128 * sample_rate as u128 + 999_999)
            / 1_000_000;
        if channels == 0 {
            assert(frames * channels == 0) by (nonlinear_arith)
                requires
                    channels == 0,
            ;
            return 0;
        }
        proof {
            assert(frames <= frames * channels) by (nonlinear_arith)
                requires
                    channels >= 1,
                    frames >= 0,
            ;
        }
        frames as usize * channels * 4
    }

    /// Pixel size of the spectrogram panel inside the overlay, in millionths.
    ///
    /// It occupies everything the indicator column does not, at full height, and never
    /// less than 16 pixels either way.
    pub fn overlay_spectrogram_size(&self) -> (r: (i128, i128))
        ensures
            !self.overlay_spectrogram ==> r == (0i128, 0i128),
            self.overlay_spectrogram ==> {
                let width = self.overlay_width * (ONE - self.overlay_label_fraction);
                &&& r.0 == if width > 16 * ONE * ONE {
                    width / (ONE as int)
                } else {
                    16 * ONE
                }
                &&& r.1 == if self.overlay_height > 16 * ONE {
                    self.overlay_height as int
                } else {
                    16 * ONE
                }
            },
    {
        if !self.overlay_spectrogram {
            return (0, 0);
        }
        let rest: i128 = 1_000_000 - self.overlay_label_fraction as i128;
        proof {
            let w = self.overlay_width as int;
            let limit = 0x8000_0000_0000_0000int;
            assert(-(limit * (2 * limit)) < w * rest < limit * (2 * limit)) by (nonlinear_arith)
                requires
                    -limit <= w <= limit,
                    -2 * limit < rest < 2 * limit,
                    limit > 0,
            ;
        }
        let width: i128 = self.overlay_width as i128 * rest;
        let height: i128 = self.overlay_height as i128;
        (
            if width > 16_000_000_000_000 {
                width / 1_000_000
            } else {
                16_000_000
            },
            if height > 16_000_000 {
                height
            } else {
                16_000_000
            },
        )
    }

    /// Export height that reproduces the stroke angles of a different frequency band at
    /// the same width: the configured height by the ratio of the bands' log spans, to
    /// the nearest pixel and never below 64.
    ///
    /// The spans are natural logarithms of the ratio of a band's ends, and there is none
    /// where it is not a number; a span that is absent or not positive leaves the
    /// configured height as it is.
    pub fn matched_export_height(&self, ours: Option<i32>, theirs: Option<i32>) -> (r: usize)
        ensures
            r == match (ours, theirs) {
                (Some(o), Some(t)) => if o > 0 && t > 0 {
                    matched_height(self.export_height as int, o as int, t as int)
                } else {
                    self.export_height as int
                },
                _ => self.export_height as int,
            },
    {
        match (ours, theirs) {
            (Some(o), Some(t)) => {
                if o > 0 && t > 0 {
                    proof {
                        let h = self.export_height as int;
                        assert(0 <= h * o <= 0x1_0000_0000_0000_0000 * 0x8000_0000)
                            by (nonlinear_arith)
                            requires
                                0 <= h <= 0x1_0000_0000_0000_0000,
                                0 <= o <= 0x8000_0000,
                        ;
                    }
                    let scaled: u128 = (2 * (self.export_height as u128 * o as u128) + t as u128)
                        / (2 * t as u128);
                    if scaled < 64 {
                        64
                    } else if scaled > usize::MAX as u128 {
                        usize::MAX
                    } else {
                        scaled as usize
                    }
                } else {
                    self.export_height
                }
            },
            _ => self.export_height,
        }
    }

    pub fn is_ignored(&self, hz: i64) -> (r: bool)
        ensures
            r == exists|i: int|
                0 <= i < self.ignore_bands.len() && (#[trigger] self.ignore_bands[i]).holds(hz as int),
    {
        let mut i: usize = 0;
        while i < self.ignore_bands.len()
            invariant
                i <= self.ignore_bands.len(),
                forall|k: int| 0 <= k < i ==> !(#[trigger] self.ignore_bands[k]).holds(hz as int),
            decreases self.ignore_bands.len() - i,
        {
            if self.ignore_bands[i].contains(hz) {
                return true;
            }
            i = i + 1;
        }
        false
    }
}

/// A height by the ratio of two spans, to the nearest pixel, halves up, within 64 and
/// what a `usize` holds.
pub open spec fn matched_height(height: int, ours: int, theirs: int) -> int {
    let scaled = (2 * (height * ours) + theirs) / (2 * theirs);
    if scaled < 64 {
        64
    } else if scaled > usize::MAX {
        usize::MAX as int
    } else {
        scaled
    }
}

/// The complaint about the first band from `i` on whose ends are the wrong way round.
pub open spec fn first_inverted(bands: Seq<IgnoreBand>, i: int) -> Option<ConfigError>
    decreases bands.len() - i,
{
    if i < 0 || i >= bands.len() {
        None
    } else if bands[i].low_hz >= bands[i].high_hz {
        Some(ConfigError::InvertedIgnoreBand(i as usize))
    } else {
        first_inverted(bands, i + 1)
    }
}

/// The two texts are the same.
pub fn is_text(s: &String, t: &str) -> (r: bool)
    ensures
        r == (s@ == t@),
{
    *s == t.to_owned()
}

/// The settings the program ships with are acceptable.
pub proof fn law_defaults_are_valid(c: Config)
    requires
        c.is_default(),
    ensures
        c.complaint() is None,
{
    assert(power_of_two(4096)) by {
        reveal_with_fuel(power_of_two, 14);
    }
}

proof fn lemma_first_inverted(bands: Seq<IgnoreBand>, i: int)
    requires
        0 <= i <= bands.len(),
        bands.len() <= usize::MAX,
    ensures
        match first_inverted(bands, i) {
            None => forall|k: int|
                i <= k < bands.len() ==> (#[trigger] bands[k]).low_hz < bands[k].high_hz,
            Some(ConfigError::InvertedIgnoreBand(k)) => {
                &&& i <= k < bands.len()
                &&& bands[k as int].low_hz >= bands[k as int].high_hz
                &&& forall|j: int| i <= j < k ==> (#[trigger] bands[j]).low_hz < bands[j].high_hz
            },
            Some(_) => false,
        },
    decreases bands.len() - i,
{
    if i < bands.len() && bands[i].low_hz < bands[i].high_hz {
        lemma_first_inverted(bands, i + 1);
    }
}

/// A configuration is accepted exactly where every setting makes sense: frames that a transform
/// takes, a hop within them, something to hold, bands with room in them, rates and times that
/// are positive, a format and a view that are known, an overlay large enough to read, and ignored
/// bands the right way round.
pub proof fn law_what_makes_sense_is_accepted(c: Config)
    requires
        c.ignore_bands.len() <= usize::MAX,
    ensures
        c.complaint() is None <==> {
            &&& c.fft_size >= 64
            &&& power_of_two(c.fft_size as int)
            &&& 1 <= c.hop <= c.fft_size
            &&& c.pcm_ring_seconds > 0
            &&& c.histogram_bins >= 2
            &&& 0 < 2 * c.spectrogram_min_hz < c.spectrogram_max_hz
            &&& 0 < 3 * c.detect_min_hz < 2 * c.detect_max_hz
            &&& c.longterm_bands >= 8
            &&& c.longterm_fps > 0
            &&& c.analysis_update_hz > 0
            &&& c.health_window_seconds > 0
            &&& (c.capture_format@ == "flac"@ || c.capture_format@ == "wav"@)
            &&& (c.view@ == "full"@ || c.view@ == "compact"@)
            &&& c.overlay_width >= 80_000_000
            &&& c.overlay_height >= 30_000_000
            &&& 100_000 <= c.overlay_label_fraction <= 900_000
            &&& c.overlay_spectrogram_seconds > 0
            &&& 0 < c.background_time_constant_seconds < c.background_max_freeze_seconds
            &&& forall|i: int|
                0 <= i < c.ignore_bands.len() ==> (#[trigger] c.ignore_bands@[i]).low_hz
                    < c.ignore_bands@[i].high_hz
        },
        c.complaint() matches Some(ConfigError::InvertedIgnoreBand(k)) ==> k < c.ignore_bands.len()
            && c.ignore_bands@[k as int].low_hz >= c.ignore_bands@[k as int].high_hz,
{
    lemma_first_inverted(c.ignore_bands@, 0);
}

/// A power of two is one doubled over and over, and nothing else is.
pub proof fn law_a_power_of_two_is_one_doubled(n: int)
    requires
        n > 0,
    ensures
        power_of_two(n) == power_of_two(2 * n),
        n % 2 == 1 ==> (power_of_two(n) <==> n == 1),
{
}

/// An export keeps its slopes: its height is to the configured one as the band shown is to the
/// published one, to the nearest pixel, 64 at least.
pub proof fn law_an_export_keeps_its_slopes(height: int, ours: int, theirs: int)
    requires
        height >= 0,
        ours > 0,
        theirs > 0,
    ensures
        64 <= matched_height(height, ours, theirs) <= usize::MAX,
        64 < matched_height(height, ours, theirs) < usize::MAX ==> -theirs <= 2 * (matched_height(
            height,
            ours,
            theirs,
        ) * theirs - height * ours) <= theirs,
{
    let x = 2 * (height * ours) + theirs;
    vstd::arithmetic::div_mod::lemma_fundamental_div_mod(x, 2 * theirs);
    let q = x / (2 * theirs);
    assert((2 * theirs) * q == 2 * (q * theirs)) by (nonlinear_arith);
}

} // verus!
