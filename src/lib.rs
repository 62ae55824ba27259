//! Greedy string-art: a grayscale picture approximated by a walk of straight
//! threads between pegs on the canvas's inscribed circle.
pub mod line;
pub mod error;
pub mod edges;
pub mod raster;
pub mod walk;
pub mod coords;
