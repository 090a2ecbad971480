//! Frame-diff encoding and multi-display playback scheduling for looping
//! animated wallpapers.

pub mod composite;
pub mod decode;
pub mod diff;
pub mod geometry;
pub mod playback;

pub use geometry::Rect;
