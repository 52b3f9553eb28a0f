use memkernel::addr::exclude_range_from_range;
use memkernel::bump::KernelHeap;
use memkernel::pci::{configuration_address, configuration_word, BusDeviceFunction};
use memkernel::sbi::{put_char, SBIWriter};
use memkernel::util::memset;
use memkernel::{PAddr, Region, Span, VAddr};

fn span(start: usize, end: usize) -> Span {
    Span { start, end }
}

#[test]
fn scenario_f_range_minus_range() {
    assert_eq!(exclude_range_from_range(&span(0, 100), &span(40, 60)), (Some(span(0, 40)), Some(span(60, 100))));
    assert_eq!(exclude_range_from_range(&span(0, 100), &span(100, 200)), (Some(span(0, 100)), None));
    assert_eq!(exclude_range_from_range(&span(0, 100), &span(0, 100)), (None, None));
    assert_eq!(exclude_range_from_range(&span(0, 100), &span(50, 150)), (Some(span(0, 50)), None));
    assert_eq!(exclude_range_from_range(&span(50, 100), &span(0, 60)), (None, Some(span(60, 100))));
}

#[test]
fn region_end_and_addresses() {
    let r = Region { addr: PAddr(0x8000_0000), size: 0x1000 };
    assert_eq!(r.end(), PAddr(0x8000_1000));
    assert_eq!(PAddr(3).add(PAddr(4)), PAddr(7));
    assert_eq!(VAddr(3).add(VAddr(4)), VAddr(7));
    assert_eq!(PAddr::zero().addr(), 0);
    assert!(PAddr(0x2000).is_aligned());
    assert!(!VAddr(0x2001).is_aligned());
}

#[test]
fn bump_heap_reserves_until_exhausted() {
    let mut h = KernelHeap::init(0x1000, 0x1100);
    assert_eq!(h.available(), 0x100);
    assert_eq!(h.reserve(0x80), Some(0x1000));
    assert_eq!(h.reserve(0x81), None);
    assert_eq!(h.available(), 0x80);
    assert_eq!(h.reserve(0x80), Some(0x1080));
    assert_eq!(h.available(), 0);
    assert_eq!(h.reserve(0), Some(0x1100));
    assert_eq!(h.reserve(1), None);
}

#[test]
fn bus_device_function_fields() {
    let b = BusDeviceFunction::new(0xab, 0x1f, 0x5);
    assert_eq!(b.bus(), 0xab);
    assert_eq!(b.device(), 0x1f);
    assert_eq!(b.function(), 0x5);
    assert_eq!(b.0, 0xabfd);
    let m = BusDeviceFunction::new(1, 0x25, 0x9);
    assert_eq!((m.bus(), m.device(), m.function()), (1, 5, 1));
    assert_eq!(configuration_address(b, 0x13), 0x80ab_fd10);
    assert_eq!(configuration_word(0x1234_5678, 2), 0x1234);
    assert_eq!(configuration_word(0x1234_5678, 1), 0x5678);
}

#[test]
fn console_calls() {
    let c = put_char('A');
    assert_eq!((c.arg0, c.fid, c.eid), (65, 0, 1));
    let calls = SBIWriter.write_bytes(&b"hi".to_vec());
    assert_eq!(calls.iter().map(|c| c.arg0).collect::<Vec<_>>(), vec![104, 105]);
}

#[test]
fn memset_fills_prefix() {
    let mut b = vec![1u8; 8];
    memset(&mut b, 9, 5);
    assert_eq!(b, vec![9, 9, 9, 9, 9, 1, 1, 1]);
}
