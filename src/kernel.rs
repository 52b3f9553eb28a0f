//! Bring-up of the memory substack: the one-shot steps from the memory map to
//! a live page-frame pump, buddy allocator and process table, bundled in one
//! context.
use vstd::prelude::*;

use crate::addr::{PAddr, Region, Span};
use crate::allocator::{required_heap_spec, BuddyAllocator, MAXIMUM_ORDER, MINIMUM_BLOCK};
use crate::bump::KernelHeap;
use crate::memory::{
    candidates, has_candidate, largest, lemma_largest_some, set_region_from_fdt, span_region, FramePump,
};
use crate::proc::{ProcState, ProcTable, MAX_PROCESSES};

verus! {

/// Frames at the start of the managed region that go to the page-frame pump;
/// the buddy allocator gets the rest, so the two never hand out the same page.
pub const PUMP_FRAMES: usize = 256;

/// Why bring-up cannot go on.
#[derive(Clone, Copy, Debug, PartialEq, Eq, Structural)]
pub enum BootError {
    /// The memory map leaves no candidate region.
    NoMemoryRegion,
    /// The selected region does not start on a page boundary.
    UnalignedRegion,
    /// The bootstrap heap cannot hold the allocator's bookkeeping.
    KernelHeapExhausted,
    /// The allocator's region has more blocks than 16-bit indices address.
    RegionTooLarge,
}

/// The kernel's memory state after bring-up.
pub struct Kernel {
    pub heap: KernelHeap,
    pub pump: FramePump,
    pub allocator: BuddyAllocator,
    pub procs: ProcTable,
}

/// The part of `region` that the page-frame pump gets.
pub open spec fn pump_part(region: Region) -> Region {
    Region {
        addr: region.addr,
        size: if region.size < PUMP_FRAMES * MINIMUM_BLOCK {
            region.size
        } else {
            (PUMP_FRAMES * MINIMUM_BLOCK) as usize
        },
    }
}

/// The part of `region` that the buddy allocator gets.
pub open spec fn buddy_part(region: Region) -> Region {
    let p = pump_part(region);
    Region { addr: PAddr((region.addr.0 + p.size) as usize), size: (region.size - p.size) as usize }
}

/// Brings the memory substack up: selects the managed region from the memory
/// map `memory` minus the kernel image `kernel`, gives its first frames to the
/// page-frame pump and the rest to the buddy allocator, and sets up an empty
/// process table. The allocator's bookkeeping lives in vectors of its own;
/// the bytes it would take are still reserved from the bootstrap heap
/// `[heap_start, heap_end)`, so that the heap accounts for them.
pub fn bring_up(memory: &Vec<(usize, usize)>, kernel: Span, heap_start: usize, heap_end: usize) -> (r: Result<Kernel, BootError>)
    requires
        heap_start <= heap_end,
        forall|i: int| 0 <= i < memory@.len() ==> #[trigger] memory@[i].0 + memory@[i].1 + 4095 <= usize::MAX,
    ensures
        ({
            let sel = largest(candidates(memory@, kernel));
            match sel {
                None => r == Err::<Kernel, BootError>(BootError::NoMemoryRegion),
                Some(s) => {
                    let region = span_region(s);
                    let b = buddy_part(region);
                    let required = required_heap_spec(b.size as nat);
                    if region.addr.0 % 4096 != 0 {
                        r == Err::<Kernel, BootError>(BootError::UnalignedRegion)
                    } else if heap_end - heap_start < required {
                        r == Err::<Kernel, BootError>(BootError::KernelHeapExhausted)
                    } else if b.size / 4096 > 0xffff {
                        r == Err::<Kernel, BootError>(BootError::RegionTooLarge)
                    } else {
                        &&& r is Ok
                        &&& r->Ok_0.pump.wf()
                        &&& r->Ok_0.pump.region_spec() == pump_part(region)
                        &&& r->Ok_0.pump.next_spec() == region.addr.0
                        &&& r->Ok_0.pump.tables().len() == 0
                        &&& r->Ok_0.allocator.wf()
                        &&& r->Ok_0.allocator.region_spec() == b
                        &&& r->Ok_0.allocator.free_list(MAXIMUM_ORDER as int) == Seq::new(
                            r->Ok_0.allocator.enrolled() / 1024,
                            |j: int| j * 1024,
                        )
                        &&& forall|k: int|
                            0 <= k < MAXIMUM_ORDER ==> #[trigger] r->Ok_0.allocator.free_list(k).len() == 0
                        &&& r->Ok_0.heap.wf()
                        &&& r->Ok_0.heap.cursor_spec() == heap_start + required
                        &&& r->Ok_0.heap.end_spec() == heap_end
                        &&& r->Ok_0.procs.wf()
                        &&& r->Ok_0.procs.pid_next_spec() == 0
                        &&& forall|i: int|
                            0 <= i < MAX_PROCESSES ==> (#[trigger] r->Ok_0.procs.procs_spec()[i]).state_spec()
                                == ProcState::Empty
                    }
                },
            }
        }),
{
    if !has_candidate(memory, kernel) {
        proof {
            lemma_largest_some(candidates(memory@, kernel));
        }
        return Err(BootError::NoMemoryRegion);
    }
    let region = set_region_from_fdt(memory, kernel);
    if region.addr.0 % MINIMUM_BLOCK != 0 {
        return Err(BootError::UnalignedRegion);
    }
    let pump_size = if region.size < PUMP_FRAMES * MINIMUM_BLOCK {
        region.size
    } else {
        PUMP_FRAMES * MINIMUM_BLOCK
    };
    let pump_region = Region { addr: region.addr, size: pump_size };
    let buddy_region = Region { addr: PAddr(region.addr.0 + pump_size), size: region.size - pump_size };
    proof {
        assert(pump_region == pump_part(region));
        assert(buddy_region == buddy_part(region));
    }
    let mut heap = KernelHeap::init(heap_start, heap_end);
    let required = BuddyAllocator::get_required_heap(buddy_region.size);
    if heap.reserve(required).is_none() {
        return Err(BootError::KernelHeapExhausted);
    }
    if buddy_region.size / MINIMUM_BLOCK > 0xffff {
        return Err(BootError::RegionTooLarge);
    }
    let pump = FramePump::new(pump_region);
    let allocator = BuddyAllocator::new(buddy_region);
    let procs = ProcTable::new();
    Ok(Kernel { heap, pump, allocator, procs })
}

} // verus!
