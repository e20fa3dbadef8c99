//! The verified core of a small x86-64 kernel: bitmap allocators over the bits
//! `0..CAP` of a fixed capacity, built from 16-bit words cascaded sixteen to a
//! level; translation through the higher-half direct map of physical memory;
//! and the summary of the boot loader's memory map.
pub mod bitmap;
pub mod bits;
pub mod hhdm;
pub mod laws;
pub mod pmem;
