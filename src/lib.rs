//! A sparse map from small integer keys to values, stored in one growable
//! buffer indexed by key, with keys handed out and recycled by an index pool.

pub mod growth;
pub mod laws;
pub mod map;
pub mod pool;

pub use map::VecMap;
