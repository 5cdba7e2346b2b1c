//! Spectrogram anomaly detector and audio direction finder for Elite Dangerous.
//!
//! The analysis chain, in whole numbers: what is heard above the background, what is keyed,
//! what is drawn and what repeats; and the rules around it, from the settings to the overlay.
//! Quantities that are not whole are held in millionths.
pub mod analysis;
pub mod arith;
pub mod audio;
pub mod config;
pub mod game_window;
pub mod order;
pub mod pipeline;
pub mod rank;
pub mod retention;
pub mod single_instance;
pub mod text;
pub mod ui;
