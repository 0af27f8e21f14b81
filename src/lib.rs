//! Early-boot physical and virtual memory management: a fixed-capacity
//! registry of physical memory areas, a bump frame allocator with carve-outs
//! for the kernel and the boot metadata, a page-table model with
//! least-privilege kernel remapping, and a guarded stack allocator.
pub use area::{PhysicalMemoryArea, PhysicalMemoryAreaIter, PhysicalMemoryAreas, RegistryFull};
pub use controller::{init, InitError, InitGuard, MemoryController};
pub use frame::{Frame, FrameIter, Page, PAGE_SIZE};
pub use frame_allocator::{AreaFrameAllocator, FrameAllocator};
pub use paging::{ActivePageTable, Entry, EntryFlags, MapError};
pub use remap::{remap_the_kernel, ElfSection};
pub use stack_allocator::{Stack, StackAllocator};

pub mod area;
pub mod controller;
pub mod frame;
pub mod frame_allocator;
pub mod paging;
pub mod remap;
pub mod stack_allocator;
