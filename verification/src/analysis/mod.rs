//! Spectral analysis, anomaly detection and direction finding.
//!
//! The primary instrument is the framed spectrum. Everything in `statistics` exists to confirm
//! that the capture is healthy, not to find signals.
pub mod background;
pub mod direction;
pub mod drift;
pub mod fold;
pub mod gradient;
pub mod keying;
pub mod morse;
pub mod novelty;
pub mod periodicity;
pub mod sliding_median;
pub mod spectrogram;
pub mod statistics;
pub mod stft;
pub mod strokes;
pub mod structure;
pub mod trace;
pub mod trace_scale;
