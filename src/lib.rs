//! The `Array` value type of a managed scripting runtime: a sparse, growable
//! sequence with hole semantics, index resolution, a reentrancy-tolerant
//! iterator, and a multi-mode sort engine.

pub mod value;
pub mod storage;
pub mod realm;
pub mod host;
pub mod array;
pub mod sort;
pub mod iter;
pub mod higher_order;
pub mod laws;
pub mod stage;
