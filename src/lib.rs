//! Kernel memory substack for a small RV32 kernel: typed addresses and regions,
//! a bootstrap bump heap, a page-frame pump, Sv32 page tables, a buddy block
//! allocator and cooperative process records.
//!
//! Everything here is host-simulatable: physical memory that the kernel would
//! touch through raw pointers is held in plain vectors owned by the structures
//! that manage it.

pub mod addr;
pub mod allocator;
pub mod block;
pub mod bump;
pub mod exceptions;
pub mod kernel;
pub mod memory;
pub mod paging;
pub mod pci;
pub mod proc;
pub mod sbi;
pub mod util;

pub use addr::{exclude_range_from_range, PAddr, Region, Span, VAddr};
pub use allocator::{BuddyAllocator, LinkedNode, Metadata, MAXIMUM_BLOCK, MAXIMUM_ORDER, MINIMUM_BLOCK};
pub use bump::KernelHeap;
pub use exceptions::TrapFrame;
pub use kernel::{bring_up, BootError, Kernel};
pub use memory::FramePump;
pub use paging::{PageFlag, PageTable, PageTableEntry};
pub use pci::BusDeviceFunction;
pub use proc::{Proc, ProcState, ProcTable, SwitchOutcome};
pub use sbi::{put_char, SBIReturn, SBIWriter, SbiCall};
pub use util::memset;
