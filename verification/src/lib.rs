//! A pre-kernel physical frame allocator and memory-map builder.
//!
//! This crate provides the early-boot memory services a boot loader needs
//! before any general-purpose allocator exists: sequential allocation of
//! 4 KiB physical page frames out of a firmware-supplied descriptor list,
//! and construction of a final, classified memory map for hand-off to the
//! next boot stage.

pub mod legacy_memory_region;
pub mod memory_map;
