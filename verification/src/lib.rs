//! Content-aware width reduction of images by seam carving.
//!
//! A seam is a top-to-bottom path with one pixel in every row whose column
//! moves by at most one between neighbouring rows. The engine scores every
//! pixel by its local colour gradient, finds the seam with the least total
//! score, and the compaction routine removes that seam from a row-major
//! buffer in place.

pub mod energy;
pub mod seam;
mod relaxation;
pub mod carving;
pub mod compaction;
pub mod resize;
