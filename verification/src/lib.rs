//! Vector quantization: compressing numeric vectors into compact codes that
//! keep approximate distances.
//!
//! The crate is generic over the element type of its vectors, which supplies
//! the arithmetic through [`vector::Real`]. Every algorithm here is stated as a
//! mathematical function of those element operations and proved to compute it.

pub mod exceptions;
pub mod vector;
pub mod distances;
pub mod utils;
pub mod bq;
pub mod sq;
pub mod pq;
pub mod opq;
pub mod rvq;
pub mod tsvq;
