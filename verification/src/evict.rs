//! Eviction engines and the primitives they are built on.
pub mod index;
pub mod list;
pub mod lri;
pub mod touch;
pub mod approx;
pub mod bag;
pub mod generation;
pub mod random;
pub mod lru;
pub mod read;
pub mod write;

pub use index::{AtomicKey, Key};
