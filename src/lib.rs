//! Physical-memory bootstrap allocator: four-level page tables whose leaf
//! entries double as the free-page list.

pub mod address;
pub mod page;
pub mod tables;
pub mod allocator;
pub mod memory;

pub use address::VirtualAddress;
