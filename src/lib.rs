//! Physical-memory and address-space bookkeeping of a UEFI bootloader: a frame allocator
//! carved from the firmware memory map, the final memory map handed to the kernel, a
//! reserved frame pair for the last switch, and the layout of the kernel's address space.

pub mod address_space;
pub mod allocator;
pub mod boot;
pub mod frame;
pub mod memory_map;
pub mod two_frames;
