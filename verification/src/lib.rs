//! Damage-tracked compositing core of a screen-annotation overlay.
//!
//! Points of drawn geometry are fixed-point integers, 256 units to the
//! pixel; the steps of a path are finer, 65536 to the pixel; rectangles are
//! in whole pixels.

pub mod draw;
pub mod pixels;
pub mod state;
pub mod types;
