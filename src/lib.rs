//! A watchdog engine that scans raw block devices chunk by chunk and reports
//! bits that changed between two passes over the same region.

pub mod bits;
pub mod disks;
pub mod size;
pub mod mounts;
pub mod stats;
pub mod cycle;
