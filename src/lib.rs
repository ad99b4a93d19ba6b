//! Lowering of an evaluated constraint system (assignment tables, copy
//! constraints and selector activations) into a straight-line program for a
//! register/memory machine, together with the memory image it expects.
pub mod field;
pub mod types;
pub mod resolver;
pub mod constants;
pub mod allocator;
pub mod lowering;
pub mod render;
pub mod output;
