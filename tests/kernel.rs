use memkernel::kernel::{bring_up, BootError, PUMP_FRAMES};
use memkernel::{PAddr, Region, Span};

#[test]
fn bring_up_carves_region_between_pump_and_allocator() {
    let memory = vec![(0x8000_0000usize, 128 * 1024 * 1024usize)];
    let kernel = Span { start: 0x8020_0000, end: 0x8034_0000 };
    let k = bring_up(&memory, kernel, 0x8022_0000, 0x8032_0000).unwrap();
    assert_eq!(k.pump.region(), Region { addr: PAddr(0x8034_0000), size: PUMP_FRAMES * 4096 });
    let heap = k.allocator.region();
    assert_eq!(heap.addr, PAddr(0x8044_0000));
    assert_eq!(heap.addr.0 + heap.size, 0x8800_0000);
    let required = memkernel::BuddyAllocator::get_required_heap(heap.size);
    assert_eq!(k.heap.available(), 0x10_0000 - required);
    assert_eq!(k.allocator.free_list_blocks(10).len(), heap.size / (4 << 20));
    assert!(k.procs.has_empty_slot());
    assert_eq!(k.procs.pid_next(), 0);
}

#[test]
fn bring_up_without_memory_fails() {
    let kernel = Span { start: 0, end: 0 };
    assert!(matches!(bring_up(&Vec::new(), kernel, 0, 0x1000), Err(BootError::NoMemoryRegion)));
}

#[test]
fn bring_up_with_unaligned_region_fails() {
    let kernel = Span { start: 0, end: 0x1001 };
    let memory = vec![(0usize, 0x10_0000usize)];
    assert!(matches!(bring_up(&memory, kernel, 0, 0x10_0000), Err(BootError::UnalignedRegion)));
}

#[test]
fn bring_up_with_small_kernel_heap_fails() {
    let kernel = Span { start: 0, end: 0 };
    let memory = vec![(0x8000_0000usize, 0x80_0000usize)];
    assert!(matches!(bring_up(&memory, kernel, 0x1000, 0x1000 + 43), Err(BootError::KernelHeapExhausted)));
}

#[test]
fn bring_up_with_too_many_blocks_fails() {
    let kernel = Span { start: 0, end: 0 };
    let memory = vec![(0x4000_0000usize, 0x2000_0000usize)];
    assert!(matches!(bring_up(&memory, kernel, 0, 0x1000_0000), Err(BootError::RegionTooLarge)));
}
