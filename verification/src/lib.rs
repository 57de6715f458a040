//! An array-backed binary heap with a pluggable ordering strategy.
//!
//! The heap supports linear-time bulk construction, logarithmic insertion,
//! and removal at an arbitrary index, and proves that the heap property is
//! re-established after every mutating operation.

pub mod heap;
