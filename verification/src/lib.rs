//! Ramer–Douglas–Peucker simplification of polylines, with proofs.
//!
//! A polyline is reduced to a subsequence of its points: a stretch of the
//! line is replaced by the chord between its ends when none of its points
//! lies farther from that chord than the caller's tolerance, and is
//! otherwise cut at the point that lies farthest.
//!
//! * [`outline`] holds the mathematical model, [`laws`] what follows from it.
//! * [`simplify`] decides which points stay, for any way of measuring them.
//! * [`distance`] measures exactly on the integer grid, and [`polyline`]
//!   simplifies polylines of grid points.
pub mod distance;
pub mod laws;
pub mod outline;
pub mod polyline;
pub mod simplify;
pub mod wide;

pub use crate::distance::{perpendicular_distance, straight_line_distance, Distance, Point};
pub use crate::outline::Reading;
pub use crate::polyline::rdp;
pub use crate::simplify::simplify_by;
