use memkernel::memory::{has_candidate, map_page_sv32, map_page_to_heap, set_region_from_fdt, FramePump};
use memkernel::paging::{PageFlag, PageTable, PageTableEntry};
use memkernel::{PAddr, Region, Span, VAddr};

fn pump() -> FramePump {
    FramePump::new(Region { addr: PAddr(0x8100_0000), size: 1024 * 1024 })
}

#[test]
fn scenario_d_single_mapping() {
    let mut pump = pump();
    let root = pump.allocate(1);
    assert_eq!(root, PAddr(0x8100_0000));
    map_page_sv32(&mut pump, root, VAddr(0x8020_0000), PAddr(0x8020_0000), PageFlag::read_write_execute());
    assert_eq!(pump.frames_used(), 2);
    let valid: Vec<usize> = (0..1024).filter(|&i| pump.entry(root, i).value() & 1 == 1).collect();
    assert_eq!(valid, vec![0x200]);
    let nonleaf = pump.entry(root, 0x200);
    assert_eq!(nonleaf.value() & 0xff, 1);
    assert_eq!(nonleaf.value(), ((0x8100_1000usize >> 12) << 10) | 1);
    let table = PAddr((nonleaf.value() >> 10) << 12);
    assert_eq!(table, PAddr(0x8100_1000));
    let leaves: Vec<usize> = (0..1024).filter(|&i| pump.entry(table, i).value() & 1 == 1).collect();
    assert_eq!(leaves, vec![0x200]);
    assert_eq!(pump.entry(table, 0x200).value(), ((0x8020_0000usize >> 12) << 10) | 0b1111);
}

#[test]
fn second_page_in_same_window_reuses_table() {
    let mut pump = pump();
    let root = pump.allocate(1);
    let rwx = PageFlag::read_write_execute();
    map_page_sv32(&mut pump, root, VAddr(0x8020_0000), PAddr(0x8020_0000), rwx);
    map_page_sv32(&mut pump, root, VAddr(0x8020_1000), PAddr(0x9000_0000), PageFlag(2));
    assert_eq!(pump.frames_used(), 2);
    let table = PAddr(0x8100_1000);
    assert_eq!(pump.entry(table, 0x201).value(), ((0x9000_0000usize >> 12) << 10) | 0b11);
    map_page_sv32(&mut pump, root, VAddr(0x8040_0000), PAddr(0x8040_0000), rwx);
    assert_eq!(pump.frames_used(), 3);
}

#[test]
fn identity_map_twice_is_idempotent() {
    let mut pump = pump();
    let root = pump.allocate(1);
    let heap = Region { addr: PAddr(0x803f_0000), size: 0x20_0000 };
    let rwx = PageFlag::read_write_execute();
    map_page_to_heap(&mut pump, root, heap, rwx);
    // the region spans two 4 MiB windows
    assert_eq!(pump.frames_used(), 3);
    let snapshot: Vec<Vec<usize>> = (0..pump.frames_used())
        .map(|t| (0..1024).map(|i| pump.entry(PAddr(0x8100_0000 + t * 4096), i).value()).collect())
        .collect();
    map_page_to_heap(&mut pump, root, heap, rwx);
    assert_eq!(pump.frames_used(), 3);
    let again: Vec<Vec<usize>> = (0..pump.frames_used())
        .map(|t| (0..1024).map(|i| pump.entry(PAddr(0x8100_0000 + t * 4096), i).value()).collect())
        .collect();
    assert_eq!(snapshot, again);
    for p in (0x803f_0000usize..0x805f_0000).step_by(4096) {
        let e = pump.entry(root, (p >> 22) & 0x3ff);
        let t = PAddr((e.value() >> 10) << 12);
        assert_eq!(pump.entry(t, (p >> 12) & 0x3ff).value(), ((p >> 12) << 10) | 0b1111);
    }
}

#[test]
fn identity_map_of_partial_page_maps_it() {
    let mut pump = pump();
    let root = pump.allocate(1);
    map_page_to_heap(&mut pump, root, Region { addr: PAddr(0x8000_0000), size: 4097 }, PageFlag(2));
    let t = PAddr(0x8100_1000);
    assert_eq!(pump.entry(t, 0).value() & 1, 1);
    assert_eq!(pump.entry(t, 1).value() & 1, 1);
    assert_eq!(pump.entry(t, 2).value(), 0);
}

#[test]
fn pump_hands_out_consecutive_zeroed_frames() {
    let mut pump = pump();
    assert_eq!(pump.available(), 256);
    assert_eq!(pump.allocate(3), PAddr(0x8100_0000));
    assert_eq!(pump.allocate(1), PAddr(0x8100_3000));
    assert_eq!(pump.available(), 252);
    assert_eq!(pump.entry(PAddr(0x8100_2000), 17), PageTableEntry(0));
}

#[test]
fn entry_round_trip() {
    for (ppn1, ppn0, flags) in [(0usize, 0usize, 1usize), (0xfff, 0x3ff, 0xff), (0x200, 0x155, 0b1111), (7, 9, 0x41)] {
        let e = PageTableEntry::new(ppn1, ppn0, PageFlag(flags));
        assert_eq!(e.ppn1(), ppn1);
        assert_eq!(e.ppn0(), ppn0);
        assert_eq!(e.flags(), PageFlag(flags));
        assert_eq!(PageTableEntry::from_value(e.value()), e);
    }
    assert_eq!(PageTableEntry::new(1, 2, PageFlag(3)).value(), (1 << 20) | (2 << 10) | 3);
}

#[test]
fn entry_with_flags_replaces_the_flag_byte() {
    let e = PageTableEntry::from_value(0x1234_56ff);
    assert_eq!(e.with_flags(PageFlag(0x0b)).value(), 0x1234_560b);
    assert_eq!(PageFlag::from_bits_truncate(0x1ff), PageFlag(0xff));
    assert_eq!(PageFlag(2).union(PageFlag(8)), PageFlag(10));
    assert!(PageFlag(14).contains(PageFlag(4)));
    assert!(!PageFlag(14).contains(PageFlag(1)));
}

#[test]
fn set_leaf_writes_leaf_in_second_level_table() {
    let mut t = PageTable::zeroed();
    memkernel::paging::set_leaf(&mut t, VAddr(0x0040_3000), PAddr(0x1234_5000), PageFlag(6));
    assert_eq!(t.entries[3].value(), (0x12345 << 10) | 7);
    assert_eq!(t.entries.iter().filter(|e| e.value() != 0).count(), 1);
}

#[test]
fn region_selection_picks_largest_piece() {
    let kernel = Span { start: 0x8020_0000, end: 0x8040_0000 };
    let memory = vec![(0x8000_0000usize, 0x800_0000usize)];
    let r = set_region_from_fdt(&memory, kernel);
    assert_eq!(r, Region { addr: PAddr(0x8040_0000), size: 0x800_0000 - 0x40_0000 });
}

#[test]
fn region_selection_rounds_and_keeps_first_of_equal_size() {
    let kernel = Span { start: 0, end: 0 };
    let memory = vec![(0x1001usize, 0x2000usize), (0x10000usize, 0x2000usize)];
    let r = set_region_from_fdt(&memory, kernel);
    assert_eq!(r, Region { addr: PAddr(0x2000), size: 0x2000 });
    assert!(has_candidate(&memory, kernel));
    assert!(!has_candidate(&Vec::new(), kernel));
    // the kernel image covers the whole region
    let all = Span { start: 0x1000, end: 0x4000 };
    assert!(!has_candidate(&vec![(0x1000usize, 0x3000usize)], all));
}
