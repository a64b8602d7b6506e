//! A two-dimensional grid of characters: cell access, bulk construction,
//! neighbour enumeration, flood fill and a plain-text form.
//!
//! Every operation is specified against [`model::GridView`], the mathematical
//! value of a grid, and proved against that specification.

pub mod model;
pub mod board;
pub mod flood;
pub mod laws;
pub mod text;

pub use crate::board::Grid;
pub use crate::model::GridView;
pub use crate::text::GridError;
