//! The analytical core of a block-sorting compressor: run-length
//! preprocessing, the Burrows-Wheeler transform and its inverse, and the
//! move-to-front recoding, each with a machine-checked contract.
//!
//! A block passes through `rle`, then through `bwt`, then through `mtf`;
//! decompression undoes each stage in turn. Every stage is a pure function
//! from one buffer to another.

pub mod rotation;
pub mod sorter;
pub mod counting;
pub mod transform;
pub mod inversion;
pub mod reference;
pub mod mtf;
pub mod rle;

pub use crate::counting::{histogram, sorted};
pub use crate::sorter::{matrix_sort, naive_matrix_sort};
pub use crate::reference::{bwt_ref, ibwt_ref};
pub use crate::transform::{bwt, ibwt};
