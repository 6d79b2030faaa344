use vstd::prelude::*;

pub mod database;
pub mod error;
pub mod graph;
pub mod matrix;
pub mod search;
pub mod spectral;
mod text;

pub use database::Database;
pub use error::GraphError;
pub use graph::AdjMatrix;
pub use matrix::Matrix;
