//! A persistent integer set built on an open-addressing hash table, and a
//! small quad-geometry buffer builder.

pub mod slots;
mod dict;
pub mod set;
pub mod quad;

pub use dict::{MAX_LEN, MIN_CAPACITY};
pub use quad::{QuadBufferBuilder, Vertex};
pub use set::IntSet;
