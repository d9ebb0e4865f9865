//! Workload generation for key-value stores: key sets, key ordering and
//! the operations that make up a generated workload.

pub mod order;
pub mod random;
pub mod sorting;
pub mod keyset;
pub mod format;
pub mod strings;
pub mod workload;
