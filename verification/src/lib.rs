//! Early-boot physical memory accounting for a freestanding kernel.
//!
//! The crate models physical memory as half-open `[start, end)` intervals of
//! byte addresses, tagged with a usage kind. A firmware-supplied catalog of
//! raw regions feeds a bump frame allocator during the heap-bootstrap window;
//! retiring the allocator replays the issued frames through an interval
//! merge/split algebra to produce one immutable, coalesced memory map.

pub mod bootstrap;

pub mod frame_allocator;

pub mod memory_map;
