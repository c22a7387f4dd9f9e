pub mod document;
pub mod edge;
pub mod error;
pub mod geom;
pub mod grid;
pub mod memory;
pub mod topology;

pub use crate::error::DocQuadError;
pub use crate::memory::buffer::DocBuffer;
