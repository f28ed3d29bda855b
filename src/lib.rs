//! Scan-and-reconstruct core for cutting per-match clips out of a long
//! robotics competition broadcast.
//!
//! - `match_key`: identity of a match, its text form and order.
//! - `detection`: the scoring overlay's readings and the phase of a match.
//! - `model`: per-match accumulation, clustering, and the inference of a
//!   match's start and results-screen window.
//! - `project`: the coordinator that schedules frame analysis, folds the
//!   results into the match table and ends with clip requests.
//! - `qr`: the results-screen QR link.
//! - `roi`: fixed-size regions with replicated-edge padding.
//! - `clip`: the ffmpeg command line for a clip.
//! - `timestamp`: wall-clock offsets.
//! - `text`: decimal numbers, splitting and searching on characters.

pub mod clip;
pub mod detection;
pub mod match_key;
pub mod model;
pub mod project;
pub mod qr;
pub mod roi;
pub mod text;
pub mod timestamp;
