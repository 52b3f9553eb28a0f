use memkernel::memory::FramePump;
use memkernel::proc::{Proc, ProcState, ProcTable, FRAME_BYTES, STACK_SIZE, STACK_WORDS};
use memkernel::{PAddr, Region};

fn setup() -> (ProcTable, FramePump) {
    let pump = FramePump::new(Region { addr: PAddr(0x8100_0000), size: 1024 * 1024 });
    (ProcTable::new(), pump)
}

fn heap() -> Region {
    Region { addr: PAddr(0x8100_0000), size: 0x10_0000 }
}

fn kernel() -> Region {
    Region { addr: PAddr(0x8020_0000), size: 0x2_0000 }
}

#[test]
fn scenario_e_create_and_switch_back() {
    let (mut table, mut pump) = setup();
    let a = table.create(&mut pump, 0x8020_1000, heap(), kernel());
    let b = table.create(&mut pump, 0x8020_2000, heap(), kernel());
    assert_eq!((a, b), (0, 1));
    assert_eq!(table.get(a).pid, 1);
    assert_eq!(table.get(b).pid, 2);
    assert_eq!(table.get(a).state(), ProcState::Loaded);
    let saved: Vec<usize> = (100..113).collect();
    let out = table.switch(a, b, &saved);
    let mut expected = vec![0usize; 13];
    expected[0] = 0x8020_2000;
    assert_eq!(out.restored, expected);
    assert_eq!(out.sscratch, STACK_SIZE);
    assert_eq!(out.satp, (1 << 31) | (table.get(b).page_table().0 >> 12));
    let out2 = table.switch(b, a, &vec![7; 13]);
    assert_eq!(out2.restored, saved);
    assert_eq!(table.get(a).stack_pointer.0, STACK_SIZE - FRAME_BYTES);
}

#[test]
fn create_builds_initial_frame() {
    let (mut table, mut pump) = setup();
    let s = table.create(&mut pump, 0xdead_b000, heap(), kernel());
    let p = table.get(s);
    assert_eq!(p.stack_pointer.0, STACK_SIZE - 13 * 4);
    assert_eq!(p.stack_word(STACK_WORDS - 13), 0xdead_b000);
    for i in STACK_WORDS - 12..STACK_WORDS {
        assert_eq!(p.stack_word(i), 0);
    }
    assert_eq!(p.page_table(), PAddr(0x8100_0000));
    // the kernel image is identity mapped
    let e = pump.entry(p.page_table(), 0x200);
    let t = PAddr((e.value() >> 10) << 12);
    assert_eq!(pump.entry(t, 0x201).value(), ((0x8020_1000usize >> 12) << 10) | 0b1111);
}

#[test]
fn create_fills_slots_in_order() {
    let (mut table, mut pump) = setup();
    let pump_heap = Region { addr: PAddr(0x8100_0000), size: 0x1000 };
    for i in 0..8 {
        assert_eq!(table.create(&mut pump, 0x1000, pump_heap, kernel()), i);
        assert_eq!(table.get(i).pid, i + 1);
    }
}

#[test]
fn placeholder_is_empty() {
    let p = Proc::placeholder();
    assert_eq!(p.pid, 0);
    assert_eq!(p.state(), ProcState::Empty);
    assert_eq!(p.stack_pointer.0, 0);
    assert_eq!(p.page_table(), PAddr(0));
}
