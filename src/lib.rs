//! Static spatial indices over two-dimensional data: a k-d tree over points
//! (`KDBush`) and a packed Hilbert R-tree over rectangles (`FlatBush`).
//! Both are built once from a fixed input and then queried; queries return
//! the identifiers (insertion positions) of what they find.
//!
//! Choices this library makes:
//! - Coordinates are primitive integers of at most 32 bits (`AllowedNumber`).
//!   Comparisons, distances and the Hilbert grid are computed exactly in
//!   wider integers, so no query can overflow.
//! - A query returns its identifiers as a `Vec`, in the order of the
//!   traversal (a stack of ranges for `KDBush`, last-in first-out node
//!   offsets for `FlatBush`).
//! - `FlatBushBuilder::finish` takes the number of boxes from what was
//!   added; there is no count to declare beforehand, so it cannot mismatch.
//! - An index with nothing in it is valid and answers every query with
//!   nothing.
//! - When all boxes' centers share an x (or y) coordinate, that axis of the
//!   Hilbert grid collapses: every center falls in cell 0 on it.
//! - A radius query finds the points whose squared distance is at most
//!   `r * r`; a negative radius acts as its absolute value.
//! - The sampling step of the Floyd-Rivest selection is computed in integers
//!   (integer logarithm, cube and square roots); it only narrows the range
//!   that is partitioned first.
pub mod coord;
pub mod util;
pub mod kd_sort;
pub mod kdbush;
pub mod hilbert;
pub mod flatbush;

pub use coord::AllowedNumber;
pub use flatbush::{FlatBush, FlatBushBuilder};
pub use hilbert::hilbert;
pub use kd_sort::sort_kd;
pub use kdbush::{KDBush, KDBushBuilder};
pub use util::IndexVec;
