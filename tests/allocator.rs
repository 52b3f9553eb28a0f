use memkernel::allocator::{BuddyAllocator, Metadata, MAXIMUM_BLOCK, MAXIMUM_ORDER, MINIMUM_BLOCK};
use memkernel::{PAddr, Region};

const BASE: usize = 0x8000_0000;

fn region_16m() -> Region {
    Region { addr: PAddr(BASE), size: 16 * 1024 * 1024 }
}

fn lists(a: &BuddyAllocator) -> Vec<Vec<usize>> {
    (0..=MAXIMUM_ORDER).map(|k| a.free_list_blocks(k)).collect()
}

fn initial_shape() -> Vec<Vec<usize>> {
    let mut v = vec![Vec::new(); MAXIMUM_ORDER + 1];
    v[MAXIMUM_ORDER] = vec![0, 1024, 2048, 3072];
    v
}

#[test]
fn construction_lists_every_max_block() {
    let a = BuddyAllocator::new(region_16m());
    assert_eq!(a.subranges(), 4096);
    assert_eq!(lists(&a), initial_shape());
    let m = a.metadata_of(1024);
    assert!(!m.is_allocated());
    assert!(m.is_free_list());
    assert_eq!(m.pool(), 10);
    assert_eq!(a.metadata_of(1).0, 0);
}

#[test]
fn construction_leaves_partial_block_unmanaged() {
    // 5 MiB: one whole 4 MiB block, the last 1 MiB unmanaged.
    let a = BuddyAllocator::new(Region { addr: PAddr(BASE), size: 5 * 1024 * 1024 });
    assert_eq!(a.free_list_blocks(MAXIMUM_ORDER), vec![0]);
    assert_eq!(a.metadata_of(1024).0, 0);
}

#[test]
fn small_region_has_nothing_to_allocate() {
    let mut a = BuddyAllocator::new(Region { addr: PAddr(BASE), size: 1024 * 1024 });
    assert!(lists(&a).iter().all(|l| l.is_empty()));
    assert_eq!(a.allocate(4096), None);
}

#[test]
fn scenario_a_split_chain() {
    let mut a = BuddyAllocator::new(region_16m());
    let p = a.allocate(4096).unwrap();
    assert_eq!(p, PAddr(BASE));
    let l = lists(&a);
    for k in 0..MAXIMUM_ORDER {
        assert_eq!(l[k], vec![1usize << k], "order {k}");
    }
    assert_eq!(l[MAXIMUM_ORDER], vec![1024, 2048, 3072]);
    let m = a.metadata_of(0);
    assert!(m.is_allocated());
    assert!(!m.is_free_list());
    assert_eq!(m.pool(), 0);
}

#[test]
fn scenario_b_free_coalesces_back() {
    let mut a = BuddyAllocator::new(region_16m());
    let p = a.allocate(4096).unwrap();
    a.free_unchecked(p);
    assert_eq!(lists(&a), initial_shape());
    let m = a.metadata_of(0);
    assert!(!m.is_allocated());
    assert!(m.is_free_list());
    assert_eq!(m.pool(), 10);
}

#[test]
fn scenario_c_half_allocated_buddy_blocks_merge() {
    let mut a = BuddyAllocator::new(region_16m());
    let big = a.allocate(8192).unwrap();
    let small = a.allocate(4096).unwrap();
    assert_eq!(big, PAddr(BASE));
    assert_eq!(small, PAddr(BASE + 2 * 4096));
    a.free_unchecked(big);
    // The 8 KiB block does not merge: its buddy (blocks 2 and 3) is half allocated.
    assert_eq!(a.free_list_blocks(1), vec![0]);
    assert_eq!(a.free_list_blocks(0), vec![3]);
    a.free_unchecked(small);
    assert_eq!(lists(&a), initial_shape());
}

#[test]
fn allocating_zero_rounds_up_to_minimum_block() {
    let mut a = BuddyAllocator::new(region_16m());
    let p = a.allocate(0).unwrap();
    assert_eq!(p, PAddr(BASE));
    assert_eq!(a.metadata_of(0).pool(), 0);
    assert_eq!(a.free_list_blocks(0), vec![1]);
}

#[test]
fn allocate_rounds_up_to_power_of_two() {
    let mut a = BuddyAllocator::new(region_16m());
    a.allocate(3 * 4096 + 1).unwrap();
    assert_eq!(a.metadata_of(0).pool(), 2);
    assert_eq!(a.free_list_blocks(1), Vec::<usize>::new());
    assert_eq!(a.free_list_blocks(2), vec![4]);
}

#[test]
fn allocating_the_max_block_takes_the_only_one() {
    let mut a = BuddyAllocator::new(Region { addr: PAddr(BASE), size: MAXIMUM_BLOCK });
    assert_eq!(a.allocate(MAXIMUM_BLOCK), Some(PAddr(BASE)));
    assert_eq!(a.allocate(MAXIMUM_BLOCK), None);
    assert_eq!(a.allocate(4096), None);
    assert_eq!(a.allocate_unchecked(MINIMUM_BLOCK), None);
}

#[test]
fn out_of_memory_returns_none_and_changes_nothing() {
    let mut a = BuddyAllocator::new(Region { addr: PAddr(BASE), size: MAXIMUM_BLOCK });
    let p = a.allocate(MAXIMUM_BLOCK / 2).unwrap();
    let before = lists(&a);
    assert_eq!(a.allocate(MAXIMUM_BLOCK), None);
    assert_eq!(lists(&a), before);
    a.free_unchecked(p);
    assert_eq!(a.free_list_blocks(MAXIMUM_ORDER), vec![0]);
}

#[test]
fn allocate_unchecked_takes_exact_block_sizes() {
    let mut a = BuddyAllocator::new(region_16m());
    assert_eq!(a.allocate_unchecked(16384), Some(PAddr(BASE)));
    assert_eq!(a.metadata_of(0).pool(), 2);
    assert_eq!(a.allocate_unchecked(16384), Some(PAddr(BASE + 4 * 4096)));
}

#[test]
fn free_of_block_whose_buddy_is_split_does_not_merge() {
    let mut a = BuddyAllocator::new(region_16m());
    let x = a.allocate(4096).unwrap(); // block 0
    let y = a.allocate(8192).unwrap(); // block 2, order 1
    let z = a.allocate(4096).unwrap(); // block 1
    assert_eq!(y, PAddr(BASE + 2 * 4096));
    assert_eq!(z, PAddr(BASE + 4096));
    a.free_unchecked(x);
    // the buddy of block 0 at order 0 is block 1, still allocated
    assert_eq!(a.free_list_blocks(0), vec![0]);
    a.free_unchecked(y);
    // the buddy of block 2 at order 1 is block 0, free but only at order 0
    assert_eq!(a.free_list_blocks(1), vec![2]);
    a.free_unchecked(z);
    assert_eq!(lists(&a), initial_shape());
}

#[test]
fn coverage_on_a_sequence() {
    let mut a = BuddyAllocator::new(region_16m());
    let sizes = [4096usize, 8192, 65536, 4096, 1 << 20, 12288];
    let mut live = Vec::new();
    for s in sizes {
        live.push((a.allocate(s).unwrap(), s));
    }
    let units = |a: &BuddyAllocator| -> usize {
        let free: usize = (0..=MAXIMUM_ORDER).map(|k| a.free_list_blocks(k).len() << k).sum();
        let alloc: usize = (0..a.subranges())
            .map(|i| a.metadata_of(i))
            .filter(|m| m.is_allocated())
            .map(|m| 1usize << m.pool())
            .sum();
        free + alloc
    };
    assert_eq!(units(&a), 4096);
    // no two live allocations overlap
    for (i, (p, s)) in live.iter().enumerate() {
        for (q, t) in live.iter().skip(i + 1) {
            let (ps, qs) = (s.next_power_of_two().max(4096), t.next_power_of_two().max(4096));
            assert!(p.0 + ps <= q.0 || q.0 + qs <= p.0);
        }
    }
    for (p, _) in live.iter().rev() {
        a.free_unchecked(*p);
        assert_eq!(units(&a), 4096);
    }
    let l = lists(&a);
    assert!(l[..MAXIMUM_ORDER].iter().all(|x| x.is_empty()));
    let mut top = l[MAXIMUM_ORDER].clone();
    top.sort();
    assert_eq!(top, vec![0, 1024, 2048, 3072]);
}

#[test]
fn free_lists_hold_consistent_metadata() {
    let mut a = BuddyAllocator::new(region_16m());
    let p = a.allocate(4096).unwrap();
    a.allocate(32768).unwrap();
    a.free_unchecked(p);
    for k in 0..=MAXIMUM_ORDER {
        for b in a.free_list_blocks(k) {
            let m = a.metadata_of(b);
            assert!(!m.is_allocated() && m.is_free_list());
            assert_eq!(m.pool() as usize, k);
            assert_eq!(b % (1 << k), 0);
        }
    }
}

#[test]
fn required_heap_is_exact() {
    // 11 list heads of 4 bytes, 4096 metadata bytes, then 4096 links of 4 bytes.
    assert_eq!(BuddyAllocator::get_required_heap(16 * 1024 * 1024), 44 + 4096 + 4 * 4096);
    // an odd metadata end is padded to the links' alignment
    assert_eq!(BuddyAllocator::get_required_heap(4096), 44 + 1 + 1 + 4);
    assert_eq!(BuddyAllocator::get_required_heap(0), 44);
}

#[test]
fn metadata_fields() {
    let m = Metadata::new(true, false, 5);
    assert_eq!(m.0, 0b1000_0101);
    assert!(m.is_allocated());
    assert!(!m.is_free_list());
    assert_eq!(m.pool(), 5);
    let m = m.with_is_allocated(false).with_is_free_list(true).with_pool(10);
    assert_eq!(m.0, 0b0100_1010);
    assert!(!m.is_allocated());
    assert!(m.is_free_list());
    assert_eq!(m.pool(), 10);
    assert_eq!(Metadata::from_value(0xff).pool(), 63);
    assert_eq!(Metadata::from_value(0x40).with_is_allocated(true).0, 0xc0);
}
