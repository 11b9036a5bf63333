//! InkWordle: the rules of a handwritten Wordle for an e-ink tablet.
//!
//! The library holds the game (word lists, scoring, the per-letter tracker,
//! answer picking), the session's decisions on each pen sample, tap and
//! submitted row, the decoders that turn raw pen and touch events into samples
//! and gestures, the ink planes and crops that feed the recognizer, and the
//! drawing surface with the board's layout.

pub mod game;
pub mod text;
pub mod surface;
pub mod ui;
pub mod render;
pub mod pen;
pub mod winput;
pub mod evdev;
pub mod touch;
pub mod preprocess;
pub mod engine;
pub mod session;
pub mod clock;
pub mod ink;
pub mod definitions;
pub mod history;
