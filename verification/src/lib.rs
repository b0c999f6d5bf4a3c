//! Incremental memory checkpoints of a paused virtual machine, and aligned
//! mappings of device memory.
//!
//! A checkpoint exports the 4 KiB blocks of guest memory that changed. The
//! hypervisor reports dirty ranges; [`guest`] reads their blocks, [`change`]
//! keeps those whose hashes differ from the record, [`tracker`] holds the
//! record and turns each block into its difference from an earlier content,
//! and [`packed`] lays the differences out as a blob. [`laws`] states what the
//! operations promise together, above all what a chain of exports restores, and
//! [`aligned`] what more holds if the dirty ranges start at the start of a block.
//! [`effects`] says what the operations do byte by byte.
//!
//! [`mmap`] decides where a mapping of device memory goes, and which system
//! calls bring it there.
//!
//! [`trusted`] holds what is taken on trust: a hash function and a compressor.

pub mod aligned;
pub mod bits;
pub mod change;
pub mod effects;
pub mod guest;
pub mod laws;
pub mod mmap;
pub mod packed;
pub mod tracker;
pub mod trusted;
