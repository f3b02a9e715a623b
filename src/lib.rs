//! A free-list allocator for blocks of fixed-size elements inside one
//! contiguous byte buffer that mirrors device memory.

pub mod order;
pub mod owners;
pub mod ranges;
pub mod registry;
pub mod simple;
pub mod transfer;
