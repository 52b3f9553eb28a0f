//! Sv32 page-table entries and tables.
use vstd::prelude::*;

use crate::addr::{PAddr, VAddr};

verus! {

/// Flag bits of an Sv32 page-table entry.
pub const FLAG_VALID: usize = 1;
pub const FLAG_READ: usize = 2;
pub const FLAG_WRITE: usize = 4;
pub const FLAG_EXECUTE: usize = 8;
pub const FLAG_USER: usize = 16;
pub const FLAG_GLOBAL: usize = 32;
pub const FLAG_ACCESSED: usize = 64;
pub const FLAG_DIRTY: usize = 128;

/// Number of entries in a page table.
pub const ENTRIES: usize = 1024;

/// The eight flag bits of a page-table entry.
#[derive(Clone, Copy, Debug, PartialEq, Eq, Structural)]
pub struct PageFlag(pub usize);

impl PageFlag {
    /// The flags form a byte.
    pub open spec fn wf(self) -> bool {
        self.0 < 256
    }

    /// At least one of read, write and execute: the entry is a leaf.
    pub open spec fn is_leaf(self) -> bool {
        self.0 & 14 != 0
    }

    /// Keeps the low eight bits of `bits`.
    pub fn from_bits_truncate(bits: usize) -> (r: PageFlag)
        ensures
            r.0 == bits % 256,
    {
        assert(bits & 0xff == bits % 256) by (bit_vector);
        PageFlag(bits & 0xff)
    }

    pub fn bits(self) -> (r: usize)
        ensures
            r == self.0,
    {
        self.0
    }

    /// The flags of both.
    pub fn union(self, other: PageFlag) -> (r: PageFlag)
        requires
            self.wf(),
            other.wf(),
        ensures
            r.0 == self.0 | other.0,
            r.wf(),
    {
        let a = self.0;
        let b = other.0;
        assert(a < 256 && b < 256 ==> a | b < 256) by (bit_vector);
        PageFlag(a | b)
    }

    /// Whether every flag of `other` is set here.
    pub fn contains(self, other: PageFlag) -> (r: bool)
        ensures
            r == (self.0 & other.0 == other.0),
    {
        self.0 & other.0 == other.0
    }

    pub fn valid() -> (r: PageFlag)
        ensures
            r.0 == FLAG_VALID,
    {
        PageFlag(FLAG_VALID)
    }

    /// Read, write and execute.
    pub fn read_write_execute() -> (r: PageFlag)
        ensures
            r.0 == FLAG_READ | FLAG_WRITE | FLAG_EXECUTE,
            r.0 == 14,
            r.wf(),
            r.is_leaf(),
    {
        assert(2usize | 4usize | 8usize == 14usize) by (bit_vector);
        assert(14usize & 14usize != 0usize) by (bit_vector);
        PageFlag(FLAG_READ | FLAG_WRITE | FLAG_EXECUTE)
    }
}

/// An Sv32 page-table entry: `[PPN1:12][PPN0:10][reserved:2][flags:8]`.
#[derive(Clone, Copy, Debug, PartialEq, Eq, Structural)]
pub struct PageTableEntry(pub usize);

/// The value of an entry with the given fields.
pub open spec fn entry_value(ppn1: int, ppn0: int, flags: int) -> int {
    ppn1 * 1048576 + ppn0 * 1024 + flags
}

pub open spec fn spec_ppn1(v: int) -> int {
    v / 1048576
}

pub open spec fn spec_ppn0(v: int) -> int {
    (v / 1024) % 1024
}

pub open spec fn spec_flags(v: int) -> int {
    v % 256
}

impl PageTableEntry {
    #[inline(always)]
    pub fn ppn1(self) -> (r: usize)
        ensures
            r == spec_ppn1(self.0 as int),
    {
        let v = self.0;
        assert(v >> 20usize == v / 1048576usize) by (bit_vector);
        v >> 20
    }

    #[inline(always)]
    pub fn ppn0(self) -> (r: usize)
        ensures
            r == spec_ppn0(self.0 as int),
    {
        let v = self.0;
        // mask the upper bits (which are ppn1)
        assert(v >> 10usize & 0x3ffusize == (v / 1024usize) % 1024usize) by (bit_vector);
        v >> 10 & 0x3ff
    }

    pub fn flags(self) -> (r: PageFlag)
        ensures
            r.0 == spec_flags(self.0 as int),
    {
        PageFlag::from_bits_truncate(self.0)
    }

    pub fn value(self) -> (r: usize)
        ensures
            r == self.0,
    {
        self.0
    }

    /// The same entry with its flag byte replaced.
    pub fn with_flags(self, flags: PageFlag) -> (r: Self)
        requires
            flags.wf(),
        ensures
            r.0 == (self.0 / 256) * 256 + flags.0,
    {
        let v = self.0;
        let f = flags.bits();
        assert(f < 256usize ==> (v >> 8usize << 8usize | f) == (v / 256usize) * 256usize + f) by (bit_vector);
        Self::from_value(v >> 8 << 8 | f)
    }

    pub fn new(ppn1: usize, ppn0: usize, flags: PageFlag) -> (r: Self)
        requires
            ppn1 < 4096,
            ppn0 < 1024,
            flags.wf(),
        ensures
            r.0 == entry_value(ppn1 as int, ppn0 as int, flags.0 as int),
    {
        let f = flags.bits();
        assert(ppn1 < 4096usize && ppn0 < 1024usize && f < 256usize ==> (ppn1 << 20usize | ppn0 << 10usize | f)
            == ppn1 * 1048576usize + ppn0 * 1024usize + f) by (bit_vector);
        Self::from_value(ppn1 << 20 | ppn0 << 10 | f)
    }

    pub fn from_value(value: usize) -> (r: Self)
        ensures
            r.0 == value,
    {
        Self(value)
    }
}

/// Decoding an entry built from `(ppn1, ppn0, flags)` gives them back.
pub proof fn lemma_entry_round_trip(ppn1: int, ppn0: int, flags: int)
    requires
        0 <= ppn1 < 4096,
        0 <= ppn0 < 1024,
        0 <= flags < 256,
    ensures
        spec_ppn1(entry_value(ppn1, ppn0, flags)) == ppn1,
        spec_ppn0(entry_value(ppn1, ppn0, flags)) == ppn0,
        spec_flags(entry_value(ppn1, ppn0, flags)) == flags,
{
    let v = entry_value(ppn1, ppn0, flags);
    assert(v / 1048576 == ppn1);
    assert(v / 1024 == ppn1 * 1024 + ppn0);
    assert((ppn1 * 1024 + ppn0) % 1024 == ppn0);
    assert(v % 256 == flags);
}

/// Decoding the leaf entry for physical page number `ppn` and `flags` with
/// Valid set gives back the page number and the flags.
pub proof fn lemma_leaf_round_trip(ppn: int, flags: usize)
    requires
        0 <= ppn < 0x40_0000,
        flags < 256,
        flags % 2 == 1,
    ensures
        spec_ppn1(leaf_entry(ppn * 4096, flags).0 as int) * 1024 + spec_ppn0(
            leaf_entry(ppn * 4096, flags).0 as int,
        ) == ppn,
        spec_flags(leaf_entry(ppn * 4096, flags).0 as int) == flags,
{
    assert(flags < 256usize && flags % 2usize == 1usize ==> flags | 1usize == flags) by (bit_vector);
    assert((ppn * 4096) / 4096 == ppn);
    let v = ppn * 1024 + flags;
    lemma_entry_round_trip(ppn / 1024, ppn % 1024, flags as int);
    assert(entry_value(ppn / 1024, ppn % 1024, flags as int) == v);
}

/// A page table: 1024 entries, one 4 KiB frame.
#[derive(Debug)]
pub struct PageTable {
    pub entries: Vec<PageTableEntry>,
}

/// Index into the first-level table: bits 22..32 of a virtual address.
pub open spec fn vpn1(v: int) -> int {
    (v / 4194304) % 1024
}

/// Index into the second-level table: bits 12..22 of a virtual address.
pub open spec fn vpn0(v: int) -> int {
    (v / 4096) % 1024
}

pub open spec fn is_valid(e: PageTableEntry) -> bool {
    e.0 % 2 == 1
}

/// The physical address that an entry holds: its page number shifted back.
pub open spec fn points_to(e: PageTableEntry) -> int {
    (e.0 / 1024) * 4096
}

/// The leaf entry that maps to physical address `p` with `flags`, plus Valid.
pub open spec fn leaf_entry(p: int, flags: usize) -> PageTableEntry {
    PageTableEntry(((p / 4096) * 1024 + (flags | 1usize)) as usize)
}

/// The non-leaf entry that points to the table at physical address `t`.
pub open spec fn table_entry(t: int) -> PageTableEntry {
    PageTableEntry(((t / 4096) * 1024 + 1) as usize)
}

pub open spec fn zero_table() -> Seq<PageTableEntry> {
    Seq::new(ENTRIES as nat, |i: int| PageTableEntry(0))
}

impl PageTable {
    pub open spec fn wf(&self) -> bool {
        self.entries@.len() == ENTRIES
    }

    /// A table with every entry zero: nothing mapped.
    pub fn zeroed() -> (r: PageTable)
        ensures
            r.entries@ == zero_table(),
    {
        let entries = vec![PageTableEntry(0); ENTRIES];
        let r = PageTable { entries };
        assert(r.entries@ =~= zero_table());
        r
    }
}

/// Writes into the second-level table `table` the leaf entry that maps the
/// page of `vaddr` to `paddr` with `flags`, plus Valid. The walk from the
/// first-level table is `memory::map_page_sv32`.
pub fn set_leaf(table: &mut PageTable, vaddr: VAddr, paddr: PAddr, flags: PageFlag)
    requires
        old(table).wf(),
        paddr.0 % 4096 == 0,
        flags.wf(),
    ensures
        final(table).entries@ == old(table).entries@.update(vpn0(vaddr.0 as int), leaf_entry(paddr.0 as int, flags.0)),
{
    let v = vaddr.addr();
    assert(v >> 12usize & 0x3ffusize == (v / 4096usize) % 1024usize) by (bit_vector);
    let vpn0 = (v >> 12) & 0x3ff;
    let f = flags.union(PageFlag::valid());
    proof {
        assert(paddr.0 / 4096 * 1024 <= paddr.0) by (nonlinear_arith)
            requires
                paddr.0 >= 0,
        ;
        assert(paddr.0 < 256 || paddr.0 / 4096 * 1024 + 256 <= paddr.0) by (nonlinear_arith)
            requires
                paddr.0 % 4096 == 0,
                paddr.0 >= 0,
        ;
    }
    let e = PageTableEntry(paddr.addr() / 4096 * 1024 + f.bits());
    table.entries.set(vpn0, e);
}

} // verus!
