//! Physical page-frame bookkeeping and frame-buffer addressing for a small kernel.
//!
//! `memory` holds the page allocator, `regions` the mathematical model its
//! contracts are stated over, and `hardware` the frame-buffer pixel writer.

pub mod hardware;
pub mod memory;
pub mod regions;
