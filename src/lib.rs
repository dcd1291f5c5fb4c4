//! A one-dimensional curve editor core: control points in normalized space,
//! a Catmull-Rom sampler, a text codec, the editing state machine and the
//! status-message bookkeeping.
//!
//! Coordinates are fixed-point integers: one unit is 1/10000 of the
//! normalized axis, so `SCALE` units make 1.0.
pub mod arith;
pub mod area;
pub mod encoders;
pub mod geometry;
pub mod number;
pub mod session;
pub mod spline;
pub mod status;
pub mod text;

pub use geometry::{distance_sq, roundf32, Vec2, ACTIVE_RADIUS, COORD_LIMIT, SCALE};
pub use spline::{lerp, sample, EDGE_OFFSET};
pub use encoders::{decode, encode};
pub use area::{Area, Axis, FrameInput, Point};
pub use status::{StatusBar, StatusLevel, StatusTimedText};
pub use session::{apply_content, committed_positions, is_dirty, AttachedFile, MousePlot};
