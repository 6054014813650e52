//! A static spatial index over polygonal grid cells.
//!
//! The index answers batched overlap queries: for each target polygon, which
//! indexed cells share interior area with it. Results are assembled into a
//! compressed sparse boolean matrix that can be viewed in the caller's
//! multi-dimensional grid layout.

pub mod cell;
pub mod codec;
pub mod error;
pub mod geometry;
pub mod index;
pub mod rtree;
pub mod shape;
pub mod sparse;
pub mod text;
pub mod tree;

pub use crate::cell::NumberedCell;
pub use crate::error::IndexError;
pub use crate::geometry::{Geometry, Relation};
pub use crate::index::CellRTree;
pub use crate::rtree::{create_empty, QueryMode, RTree};
pub use crate::sparse::{AsSparse, SparseMatrix};
