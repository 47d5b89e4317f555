//! Linked containers with stated behaviour: a stack of `i32` values built
//! from exclusively owned nodes, and a double-ended list whose nodes live in
//! an index arena and refer to their neighbours by slot number.
pub mod first;
pub mod model;
pub mod fourth;
