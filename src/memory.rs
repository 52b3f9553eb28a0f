//! The page-frame pump and the Sv32 page-table builder on top of it.
use vstd::prelude::*;

use crate::addr::{
    exclude_range_from_range, left_rest, right_rest, spans_disjoint, PAddr, Region, Span, VAddr,
    PAGE_SIZE,
};
use crate::paging::{
    is_valid, leaf_entry, points_to, table_entry, vpn0, vpn1, zero_table, PageFlag, PageTable,
    PageTableEntry, ENTRIES,
};

verus! {

/// Hands out zeroed 4 KiB frames from a region, advancing a cursor; frames
/// are never given back. The pump keeps the frames it has handed out: frame
/// `t` is the page at `region.addr + t * 4096`.
pub struct FramePump {
    region: Region,
    next: PAddr,
    frames: Vec<PageTable>,
}

/// The tables after mapping the page of `v` to `p` with `flags` under the
/// root table `r` (a frame index), frames starting at physical `base`: when
/// the root has no valid entry for the page, a fresh zeroed table is appended
/// and the root points to it; then the leaf entry is written.
pub open spec fn mapped_tables(
    tables: Seq<Seq<PageTableEntry>>,
    base: int,
    r: int,
    v: int,
    p: int,
    flags: usize,
) -> Seq<Seq<PageTableEntry>> {
    let e = tables[r][vpn1(v)];
    if is_valid(e) {
        let t = (points_to(e) - base) / 4096;
        tables.update(t, tables[t].update(vpn0(v), leaf_entry(p, flags)))
    } else {
        let t = tables.len() as int;
        tables.update(r, tables[r].update(vpn1(v), table_entry(base + t * 4096))).push(
            zero_table().update(vpn0(v), leaf_entry(p, flags)),
        )
    }
}

impl FramePump {
    pub closed spec fn tables(&self) -> Seq<Seq<PageTableEntry>> {
        self.frames@.map_values(|t: PageTable| t.entries@)
    }

    pub closed spec fn region_spec(&self) -> Region {
        self.region
    }

    pub closed spec fn next_spec(&self) -> int {
        self.next.0 as int
    }

    /// The pump's invariant: the region starts on a page boundary, the
    /// cursor sits right after the frames handed out, within the region, and
    /// every frame is a full table.
    pub open spec fn wf(&self) -> bool {
        &&& self.region_spec().wf()
        &&& self.region_spec().addr.0 % 4096 == 0
        &&& self.next_spec() == self.region_spec().addr.0 + self.tables().len() * 4096
        &&& self.next_spec() <= self.region_spec().end_spec()
        &&& forall|t: int| 0 <= t < self.tables().len() ==> (#[trigger] self.tables()[t]).len() == ENTRIES
    }

    proof fn lemma_tables(&self)
        ensures
            self.tables().len() == self.frames@.len(),
            forall|t: int|
                0 <= t < self.frames@.len() ==> #[trigger] self.tables()[t] == self.frames@[t].entries@,
            forall|t: int|
                0 <= t < self.frames@.len() ==> ((#[trigger] self.frames@[t]).wf() <==> self.tables()[t].len()
                    == ENTRIES),
    {
    }

    /// Frames still to hand out.
    pub open spec fn available_spec(&self) -> int {
        (self.region_spec().end_spec() - self.next_spec()) / 4096
    }

    /// Index of the frame at physical address `a`.
    pub open spec fn frame_of(&self, a: int) -> int {
        (a - self.region_spec().addr.0) / 4096
    }

    /// Whether `a` is the address of a frame handed out by the pump.
    pub open spec fn is_frame(&self, a: int) -> bool {
        &&& a >= self.region_spec().addr.0
        &&& (a - self.region_spec().addr.0) % 4096 == 0
        &&& self.frame_of(a) < self.tables().len()
    }

    /// The table at `root` is a well-formed first level: each valid entry
    /// points to a frame of the pump other than the root, and no two valid
    /// entries point to the same frame.
    pub open spec fn tree_ok(&self, root: int) -> bool {
        let t = self.tables()[self.frame_of(root)];
        &&& self.is_frame(root)
        &&& forall|i: int|
            0 <= i < ENTRIES && is_valid(#[trigger] t[i]) ==> self.is_frame(points_to(t[i]))
                && self.frame_of(points_to(t[i])) != self.frame_of(root)
        &&& forall|i: int, j: int|
            0 <= i < ENTRIES && 0 <= j < ENTRIES && i != j && is_valid(#[trigger] t[i]) && is_valid(
                #[trigger] t[j],
            ) ==> points_to(t[i]) != points_to(t[j])
    }

    /// Under `root`, the page of `v` maps to `p` with `flags`.
    pub open spec fn maps(&self, root: int, v: int, p: int, flags: usize) -> bool {
        let e = self.tables()[self.frame_of(root)][vpn1(v)];
        &&& is_valid(e)
        &&& self.is_frame(points_to(e))
        &&& self.tables()[self.frame_of(points_to(e))][vpn0(v)] == leaf_entry(p, flags)
    }

    /// A pump over `region`, which must start on a page boundary.
    pub fn new(region: Region) -> (r: Self)
        requires
            region.wf(),
            region.addr.0 % 4096 == 0,
        ensures
            r.wf(),
            r.region_spec() == region,
            r.next_spec() == region.addr.0,
            r.tables().len() == 0,
    {
        let r = FramePump { region, next: region.addr, frames: Vec::new() };
        assert(r.tables() =~= Seq::<Seq<PageTableEntry>>::empty());
        r
    }

    /// Number of frames still to hand out.
    pub fn available(&self) -> (r: usize)
        requires
            self.wf(),
        ensures
            r == self.available_spec(),
    {
        (self.region.end().addr() - self.next.addr()) / PAGE_SIZE
    }

    pub fn region(&self) -> (r: Region)
        ensures
            r == self.region_spec(),
    {
        self.region
    }

    /// Hands out `n` zeroed frames and returns the address of the first.
    pub fn allocate(&mut self, n: usize) -> (r: PAddr)
        requires
            old(self).wf(),
            n <= old(self).available_spec(),
        ensures
            final(self).wf(),
            r.0 == old(self).next_spec(),
            final(self).next_spec() == old(self).next_spec() + n * 4096,
            final(self).region_spec() == old(self).region_spec(),
            final(self).tables() == old(self).tables() + Seq::new(n as nat, |i: int| zero_table()),
            n > 0 ==> final(self).is_frame(r.0 as int) && final(self).frame_of(r.0 as int) == old(
                self,
            ).tables().len(),
    {
        let addr = self.next;
        proof {
            self.lemma_tables();
            let len = self.frames@.len() as int;
            assert(self.next.0 - self.region.addr.0 == len * 4096);
            assert((len * 4096) % 4096 == 0 && (len * 4096) / 4096 == len) by (nonlinear_arith);
        }
        let mut i: usize = 0;
        while i < n
            invariant
                i <= n,
                n <= old(self).available_spec(),
                self.region == old(self).region,
                self.frames@.len() == old(self).frames@.len() + i,
                forall|t: int| 0 <= t < self.frames@.len() ==> (#[trigger] self.frames@[t]).wf(),
                self.tables() == old(self).tables() + Seq::new(i as nat, |j: int| zero_table()),
                old(self).wf(),
                self.next == old(self).next,
            decreases n - i,
        {
            let ghost before = self.tables();
            self.frames.push(PageTable::zeroed());
            proof {
                assert(self.tables() =~= before.push(zero_table()));
                assert(self.tables() =~= old(self).tables() + Seq::new((i + 1) as nat, |j: int| zero_table()));
            }
            i += 1;
        }
        proof {
            assert(n * 4096 <= self.region.end_spec() - self.next.0) by (nonlinear_arith)
                requires
                    n <= (self.region.end_spec() - self.next.0) / 4096,
                    self.next.0 <= self.region.end_spec(),
            ;
        }
        self.next = PAddr(self.next.0 + n * PAGE_SIZE);
        addr
    }

    /// A copy of the entry `i` of the table at `table`.
    pub fn entry(&self, table: PAddr, i: usize) -> (r: PageTableEntry)
        requires
            self.wf(),
            self.is_frame(table.0 as int),
            i < ENTRIES,
        ensures
            r == self.tables()[self.frame_of(table.0 as int)][i as int],
    {
        let t = (table.0 - self.region.addr.0) / PAGE_SIZE;
        proof {
            self.lemma_tables();
        }
        self.frames[t].entries[i]
    }

    /// Number of frames handed out so far.
    pub fn frames_used(&self) -> (r: usize)
        ensures
            r == self.tables().len(),
    {
        self.frames.len()
    }
}


/// A non-leaf entry for a page-aligned table address points back to it.
proof fn lemma_table_entry(a: int)
    requires
        0 <= a <= usize::MAX,
        a % 4096 == 0,
    ensures
        is_valid(table_entry(a)),
        points_to(table_entry(a)) == a,
        table_entry(a).0 == (a / 4096) * 1024 + 1,
{
    let q = a / 4096;
    assert(a == 4096 * q);
    assert(q * 1024 + 1 <= usize::MAX);
    assert((q * 1024 + 1) / 1024 == q);
    assert((q * 1024 + 1) % 2 == 1);
}

/// Installs the mapping of the page of `vaddr` to `paddr` with `flags` under
/// the first-level table `table1`. When the first-level entry is not valid, a
/// fresh frame from the pump becomes the second-level table and the entry
/// points to it with only Valid set; then the second-level entry gets the
/// physical page number and `flags` plus Valid.
///
/// Sv32: VPN1 (10 bits) + VPN0 (10 bits) + offset (12 bits).
#[verifier::rlimit(30)]
pub fn map_page_sv32(pump: &mut FramePump, table1: PAddr, vaddr: VAddr, paddr: PAddr, flags: PageFlag)
    requires
        old(pump).wf(),
        old(pump).tree_ok(table1.0 as int),
        vaddr.0 % 4096 == 0,
        paddr.0 % 4096 == 0,
        vaddr.0 < 0x1_0000_0000,
        flags.wf(),
        !is_valid(old(pump).tables()[old(pump).frame_of(table1.0 as int)][vpn1(vaddr.0 as int)])
            ==> old(pump).available_spec() >= 1,
    ensures
        final(pump).wf(),
        final(pump).tree_ok(table1.0 as int),
        final(pump).region_spec() == old(pump).region_spec(),
        final(pump).tables() == mapped_tables(
            old(pump).tables(),
            old(pump).region_spec().addr.0 as int,
            old(pump).frame_of(table1.0 as int),
            vaddr.0 as int,
            paddr.0 as int,
            flags.0,
        ),
        final(pump).next_spec() == old(pump).next_spec() + (if is_valid(
            old(pump).tables()[old(pump).frame_of(table1.0 as int)][vpn1(vaddr.0 as int)],
        ) {
            0int
        } else {
            4096int
        }),
        final(pump).maps(table1.0 as int, vaddr.0 as int, paddr.0 as int, flags.0),
        forall|v: int, p: int, f: usize|
            0 <= v < 0x1_0000_0000 && v % 4096 == 0 && v != vaddr.0 && #[trigger] old(pump).maps(
                table1.0 as int,
                v,
                p,
                f,
            ) ==> final(pump).maps(table1.0 as int, v, p, f),
{
    let ghost o = *pump;
    let ghost ot = o.tables();
    proof {
        o.lemma_tables();
    }
    let base = pump.region.addr.addr();
    let r = (table1.addr() - base) / PAGE_SIZE;
    let v = vaddr.addr();
    assert(v >> 22usize & 0x3ffusize == (v / 4194304usize) % 1024usize) by (bit_vector);
    let vpn1 = (v >> 22) & 0x3ff;
    proof {
        assert(ot[r as int] == o.frames@[r as int].entries@);
        assert(o.frames@[r as int].wf());
    }
    let e = pump.frames[r].entries[vpn1];
    let ev = e.0;
    assert((ev & 1usize == 0usize) == (ev % 2usize == 0usize)) by (bit_vector);
    if ev & crate::paging::FLAG_VALID == 0 {
        let page_table = pump.allocate(1);
        let ghost fa = pump.frames@;
        let ghost ta = pump.tables();
        proof {
            pump.lemma_tables();
            lemma_table_entry(page_table.0 as int);
            assert(ta =~= ot.push(zero_table()));
            assert(page_table.0 == base + ot.len() * 4096);
        }
        let mut root = PageTable { entries: Vec::new() };
        pump.frames.set_and_swap(r, &mut root);
        let ne = PageTableEntry(page_table.addr() / PAGE_SIZE * 1024 + crate::paging::FLAG_VALID);
        root.entries.set(vpn1, ne);
        let ghost nroot = root.entries@;
        pump.frames.set_and_swap(r, &mut root);
        proof {
            let t = ot.len() as int;
            assert(fa[r as int].entries@ == ta[r as int]);
            assert(ne == table_entry(base + t * 4096));
            assert(nroot == ot[r as int].update(vpn1 as int, table_entry(base + t * 4096)));
            assert(pump.frames@ == fa.update(r as int, pump.frames@[r as int]));
            assert forall|x: int| 0 <= x < pump.frames@.len() implies #[trigger] pump.tables()[x] == ot.update(
                r as int,
                ot[r as int].update(vpn1 as int, table_entry(base + t * 4096)),
            ).push(zero_table())[x] by {
                if x != r {
                    assert(pump.frames@[x] == fa[x]);
                    assert(pump.tables()[x] == fa[x].entries@);
                    assert(ta[x] == fa[x].entries@);
                    if x < ot.len() {
                        assert(ta[x] == ot[x]);
                    } else {
                        assert(ta[x] == zero_table());
                    }
                } else {
                    assert(pump.tables()[x] == pump.frames@[x].entries@);
                    assert(pump.frames@[x].entries@ == nroot);
                }
            }
            assert(pump.tables() =~= ot.update(r as int, ot[r as int].update(vpn1 as int, table_entry(base + t * 4096))).push(zero_table()));
        }
    }
    let ghost t1 = pump.tables();
    proof {
        pump.lemma_tables();
        assert(pump.frames@[r as int].wf());
        assert(t1[r as int] == pump.frames@[r as int].entries@);
    }
    let e1 = pump.frames[r].entries[vpn1];
    proof {
        assert(is_valid(e1));
        assert(pump.is_frame(points_to(e1)));
    }
    let t0 = (e1.0 / 1024) * PAGE_SIZE;
    let t = (t0 - base) / PAGE_SIZE;
    proof {
        assert(t < pump.frames@.len());
        assert(pump.frames@[t as int].wf());
    }
    let ghost fb = pump.frames@;
    let mut table = PageTable { entries: Vec::new() };
    pump.frames.set_and_swap(t, &mut table);
    crate::paging::set_leaf(&mut table, vaddr, paddr, flags);
    pump.frames.set_and_swap(t, &mut table);
    proof {
        assert(fb[t as int].entries@ == t1[t as int]);
        assert forall|x: int| 0 <= x < pump.frames@.len() implies #[trigger] pump.tables()[x] == t1.update(
            t as int,
            t1[t as int].update(vpn0(v as int), leaf_entry(paddr.0 as int, flags.0)),
        )[x] by {
            if x != t {
                assert(pump.frames@[x] == fb[x]);
            }
        }
        assert(pump.tables() =~= t1.update(t as int, t1[t as int].update(vpn0(v as int), leaf_entry(paddr.0 as int, flags.0))));
        pump.lemma_tables();
    }
}


/// Number of first-level entries (4 MiB windows) that the pages of `region`
/// fall in.
pub open spec fn windows(region: Region) -> int {
    if region.size == 0 {
        0
    } else {
        (region.addr.0 + region.size - 1) / 4194304 - region.addr.0 / 4194304 + 1
    }
}

/// Number of first-level entries that the pages of `region` fall in.
pub fn window_count(region: Region) -> (r: usize)
    requires
        region.wf(),
    ensures
        r == windows(region),
{
    if region.size == 0 {
        0
    } else {
        proof {
            vstd::arithmetic::div_mod::lemma_div_is_ordered(
                region.addr.0 as int,
                region.addr.0 + region.size - 1,
                4194304,
            );
        }
        (region.addr.0 + (region.size - 1)) / 4194304 - region.addr.0 / 4194304 + 1
    }
}

/// The `j`-th page of `region`.
pub open spec fn page_of(region: Region, j: int) -> int {
    region.addr.0 + j * 4096
}

/// Number of pages of `region`, a partial last page counting as one.
pub open spec fn pages_of(region: Region) -> int {
    (region.size + 4095) / 4096
}

impl FramePump {
    /// Under `root`, every page of `region` maps to itself with `flags`.
    pub open spec fn maps_region(&self, root: int, region: Region, flags: usize) -> bool {
        forall|j: int| 0 <= j < pages_of(region) ==> #[trigger] self.maps(root, page_of(region, j), page_of(region, j), flags)
    }

    /// What identity-mapping `region` under `root` with `flags` leaves: every
    /// page of the region maps to itself, mappings of pages outside the region
    /// stay, at most one frame goes to each window of the region, and nothing
    /// changes when every page was mapped so already.
    pub open spec fn identity_map_post(old: &Self, new: &Self, root: int, region: Region, flags: usize) -> bool {
        &&& new.wf()
        &&& new.tree_ok(root)
        &&& new.region_spec() == old.region_spec()
        &&& new.maps_region(root, region, flags)
        &&& new.next_spec() <= old.next_spec() + windows(region) * 4096
        &&& old.maps_region(root, region, flags) ==> new.tables() == old.tables() && new.next_spec()
            == old.next_spec()
        &&& forall|v: int, p: int, f: usize|
            0 <= v < 0x1_0000_0000 && v % 4096 == 0 && !(region.addr.0 <= v < region.addr.0 + region.size)
                && #[trigger] old.maps(root, v, p, f) ==> new.maps(root, v, p, f)
    }
}

/// Identity-maps every page of `region` under the first-level table `table`
/// with `flags`: each page-aligned physical address of the region maps to the
/// same virtual address.
#[verifier::rlimit(30)]
pub fn map_page_to_heap(pump: &mut FramePump, table: PAddr, region: Region, flags: PageFlag)
    requires
        old(pump).wf(),
        old(pump).tree_ok(table.0 as int),
        region.wf(),
        region.addr.0 % 4096 == 0,
        region.end_spec() <= 0x1_0000_0000,
        flags.wf(),
        !old(pump).maps_region(table.0 as int, region, flags.0) ==> old(pump).available_spec() >= windows(
            region,
        ),
    ensures
        FramePump::identity_map_post(old(pump), final(pump), table.0 as int, region, flags.0),
{
    let ghost o = *pump;
    let npages = region.size / PAGE_SIZE + if region.size % PAGE_SIZE != 0 {
        1
    } else {
        0
    };
    let ghost mut used: int = 0;
    let mut i: usize = 0;
    while i < npages
        invariant
            o.wf(),
            o.tree_ok(table.0 as int),
            region.wf(),
            region.addr.0 % 4096 == 0,
            region.end_spec() <= 0x1_0000_0000,
            flags.wf(),
            !o.maps_region(table.0 as int, region, flags.0) ==> o.available_spec() >= windows(region),
            npages == pages_of(region),
            i <= npages,
            pump.wf(),
            pump.tree_ok(table.0 as int),
            pump.region_spec() == o.region_spec(),
            pump.next_spec() == o.next_spec() + used * 4096,
            0 <= used,
            i == 0 ==> used == 0,
            i > 0 ==> used <= page_of(region, i - 1) / 4194304 - region.addr.0 / 4194304 + 1,
            forall|j: int| 0 <= j < i ==> #[trigger] pump.maps(table.0 as int, page_of(region, j), page_of(region, j), flags.0),
            o.maps_region(table.0 as int, region, flags.0) ==> pump.tables() == o.tables() && used == 0,
            forall|v: int, p: int, f: usize|
                0 <= v < 0x1_0000_0000 && v % 4096 == 0 && !(region.addr.0 <= v < region.addr.0 + region.size)
                    && #[trigger] o.maps(table.0 as int, v, p, f) ==> pump.maps(table.0 as int, v, p, f),
        decreases npages - i,
    {
        let paddr = region.addr.addr() + i * PAGE_SIZE;
        proof {
            lemma_page_in_region(region, i as int);
            assert(paddr == page_of(region, i as int));
            if o.maps_region(table.0 as int, region, flags.0) {
                assert(o.maps(table.0 as int, page_of(region, i as int), page_of(region, i as int), flags.0));
            } else {
                lemma_step_capacity(o, *pump, table.0 as int, region, flags.0, i as int, used);
            }
        }
        let ghost before = *pump;
        map_page_sv32(pump, table, VAddr(paddr), PAddr(paddr), flags);
        proof {
            let e = before.tables()[before.frame_of(table.0 as int)][vpn1(paddr as int)];
            if !is_valid(e) {
                used = used + 1;
            }
            lemma_step_bound(region, i as int, used, is_valid(e));
            if o.maps_region(table.0 as int, region, flags.0) {
                assert(o.maps(table.0 as int, page_of(region, i as int), page_of(region, i as int), flags.0));
                assert(before.maps(table.0 as int, paddr as int, paddr as int, flags.0));
                let tt = before.tables();
                let e = tt[before.frame_of(table.0 as int)][vpn1(paddr as int)];
                let t = before.frame_of(points_to(e));
                assert(tt[t].update(vpn0(paddr as int), leaf_entry(paddr as int, flags.0)) =~= tt[t]);
                assert(tt.update(t, tt[t]) =~= tt);
                assert(pump.tables() =~= before.tables());
            }
            assert forall|j: int| 0 <= j < i + 1 implies #[trigger] pump.maps(
                table.0 as int,
                page_of(region, j),
                page_of(region, j),
                flags.0,
            ) by {
                if j < i {
                    lemma_page_in_region(region, j);
                    assert(before.maps(table.0 as int, page_of(region, j), page_of(region, j), flags.0));
                }
            }
            assert forall|v: int, p: int, f: usize|
                0 <= v < 0x1_0000_0000 && v % 4096 == 0 && !(region.addr.0 <= v < region.addr.0 + region.size)
                    && #[trigger] o.maps(table.0 as int, v, p, f) implies pump.maps(table.0 as int, v, p, f) by {
                assert(before.maps(table.0 as int, v, p, f));
            }
        }
        i += 1;
    }
    proof {
        if region.size > 0 {
            assert(npages > 0);
            lemma_page_in_region(region, npages - 1);
        }
    }
}

/// The `j`-th page of a region lies in it.
pub proof fn lemma_page_in_region(region: Region, j: int)
    requires
        region.wf(),
        region.addr.0 % 4096 == 0,
        0 <= j < pages_of(region),
    ensures
        region.addr.0 <= page_of(region, j) < region.end_spec(),
        page_of(region, j) % 4096 == 0,
        page_of(region, j) <= region.end_spec() - 1,
{
    assert(j * 4096 < region.size) by (nonlinear_arith)
        requires
            j < (region.size + 4095) / 4096,
            j >= 0,
    ;
    assert((region.addr.0 + j * 4096) % 4096 == 0) by (nonlinear_arith)
        requires
            region.addr.0 % 4096 == 0,
    ;
}

/// When the page `i` needs a fresh second-level table, one is left.
#[verifier::rlimit(30)]
proof fn lemma_step_capacity(o: FramePump, s: FramePump, root: int, region: Region, flags: usize, i: int, used: int)
    requires
        region.wf(),
        region.addr.0 % 4096 == 0,
        region.end_spec() <= 0x1_0000_0000,
        o.available_spec() >= windows(region),
        0 <= i < pages_of(region),
        s.region_spec() == o.region_spec(),
        s.next_spec() == o.next_spec() + used * 4096,
        o.wf(),
        0 <= used,
        i == 0 ==> used == 0,
        i > 0 ==> used <= page_of(region, i - 1) / 4194304 - region.addr.0 / 4194304 + 1,
        i > 0 ==> s.maps(root, page_of(region, i - 1), page_of(region, i - 1), flags),
    ensures
        !is_valid(s.tables()[s.frame_of(root)][vpn1(page_of(region, i))]) ==> s.available_spec() >= 1,
        !is_valid(s.tables()[s.frame_of(root)][vpn1(page_of(region, i))]) && i > 0 ==> page_of(
            region,
            i - 1,
        ) / 4194304 < page_of(region, i) / 4194304,
{
    lemma_page_in_region(region, i);
    let p = page_of(region, i);
    let last = region.end_spec() - 1;
    assert(p / 4194304 <= last / 4194304) by {
        vstd::arithmetic::div_mod::lemma_div_is_ordered(p, last, 4194304);
    }
    assert(region.size > 0);
    if !is_valid(s.tables()[s.frame_of(root)][vpn1(p)]) {
        if i > 0 {
            lemma_page_in_region(region, i - 1);
            let q = page_of(region, i - 1);
            assert(vpn1(q) != vpn1(p));
            assert(q / 4194304 < 1024);
            assert(p / 4194304 < 1024);
            assert(q / 4194304 != p / 4194304);
            vstd::arithmetic::div_mod::lemma_div_is_ordered(q, p, 4194304);
        }
        assert(used + 1 <= windows(region));
        assert(s.available_spec() == o.available_spec() - used);
    }
}

proof fn lemma_step_bound(region: Region, i: int, used: int, reused: bool)
    requires
        region.wf(),
        region.addr.0 % 4096 == 0,
        0 <= i < pages_of(region),
        0 <= used,
        i == 0 ==> used <= 1,
        i > 0 && reused ==> used <= page_of(region, i - 1) / 4194304 - region.addr.0 / 4194304 + 1,
        i > 0 && !reused ==> used <= page_of(region, i - 1) / 4194304 - region.addr.0 / 4194304 + 2,
        i > 0 && !reused ==> page_of(region, i - 1) / 4194304 < page_of(region, i) / 4194304,
    ensures
        used <= page_of(region, i) / 4194304 - region.addr.0 / 4194304 + 1,
{
    lemma_page_in_region(region, i);
    vstd::arithmetic::div_mod::lemma_div_is_ordered(region.addr.0 as int, page_of(region, i), 4194304);
    if i > 0 {
        vstd::arithmetic::div_mod::lemma_div_is_ordered(page_of(region, i - 1), page_of(region, i), 4194304);
    }
}


/// Identity-mapping a region twice in a row: the second pass changes no
/// mapping and takes no frame from the pump.
pub proof fn lemma_identity_map_idempotent(
    p0: FramePump,
    p1: FramePump,
    p2: FramePump,
    root: int,
    region: Region,
    flags: usize,
)
    requires
        FramePump::identity_map_post(&p0, &p1, root, region, flags),
        FramePump::identity_map_post(&p1, &p2, root, region, flags),
    ensures
        p2.tables() == p1.tables(),
        p2.next_spec() == p1.next_spec(),
        forall|v: int, p: int, f: usize| #[trigger] p2.maps(root, v, p, f) == p1.maps(root, v, p, f),
{
}

/// `x` rounded up to a page boundary.
pub open spec fn round_up(x: int) -> int {
    ((x + 4095) / 4096) * 4096
}

fn round_up_page(x: usize) -> (r: usize)
    requires
        x + 4095 <= usize::MAX,
    ensures
        r == round_up(x as int),
{
    proof {
        assert(((x + 4095) / 4096) * 4096 <= x + 4095) by (nonlinear_arith);
    }
    (x + (PAGE_SIZE - 1)) / PAGE_SIZE * PAGE_SIZE
}

/// A DTB memory region `(start, size)` rounded to page boundaries.
pub open spec fn page_span(m: (usize, usize)) -> Span {
    Span { start: round_up(m.0 as int) as usize, end: round_up(m.0 + m.1) as usize }
}

pub open spec fn opt_seq(s: Option<Span>) -> Seq<Span> {
    match s {
        Some(s) => seq![s],
        None => Seq::empty(),
    }
}

/// What is left of the rounded region `m` once the kernel image is taken out.
pub open spec fn pieces(m: (usize, usize), kernel: Span) -> Seq<Span> {
    let base = page_span(m);
    if spans_disjoint(base, kernel) {
        seq![base]
    } else {
        opt_seq(left_rest(base, kernel)) + opt_seq(right_rest(base, kernel))
    }
}

/// The candidate regions of the memory map, in order.
pub open spec fn candidates(memory: Seq<(usize, usize)>, kernel: Span) -> Seq<Span>
    decreases memory.len(),
{
    if memory.len() == 0 {
        Seq::empty()
    } else {
        candidates(memory.drop_last(), kernel) + pieces(memory.last(), kernel)
    }
}

pub open spec fn span_size(s: Span) -> int {
    s.end - s.start
}

/// Keeps `best` unless `x` is strictly larger.
pub open spec fn pick(best: Option<Span>, x: Span) -> Option<Span> {
    match best {
        None => Some(x),
        Some(b) => if span_size(b) < span_size(x) {
            Some(x)
        } else {
            Some(b)
        },
    }
}

/// The first candidate of the largest size.
pub open spec fn largest(c: Seq<Span>) -> Option<Span>
    decreases c.len(),
{
    if c.len() == 0 {
        None
    } else {
        pick(largest(c.drop_last()), c.last())
    }
}

pub open spec fn span_region(s: Span) -> Region {
    Region { addr: PAddr(s.start), size: (s.end - s.start) as usize }
}

proof fn lemma_largest_push(c: Seq<Span>, x: Span)
    ensures
        largest(c.push(x)) == pick(largest(c), x),
{
    assert(c.push(x).drop_last() =~= c);
}

/// Selects the physical memory region to manage: each memory region
/// `(start, size)` of the device tree is rounded to page boundaries, the
/// kernel image `kernel` is taken out of it, and of the pieces left the first
/// of the largest size wins. Without any piece the kernel cannot go on; see
/// `has_candidate`.
#[verifier::rlimit(30)]
pub fn set_region_from_fdt(memory: &Vec<(usize, usize)>, kernel: Span) -> (r: Region)
    requires
        forall|i: int| 0 <= i < memory@.len() ==> #[trigger] memory@[i].0 + memory@[i].1 + 4095 <= usize::MAX,
        candidates(memory@, kernel).len() > 0,
    ensures
        largest(candidates(memory@, kernel)) is Some,
        r == span_region(largest(candidates(memory@, kernel))->0),
        r.wf(),
{
    let mut best: Option<Span> = None;
    let mut i: usize = 0;
    while i < memory.len()
        invariant
            i <= memory@.len(),
            forall|i: int| 0 <= i < memory@.len() ==> #[trigger] memory@[i].0 + memory@[i].1 + 4095 <= usize::MAX,
            best == largest(candidates(memory@.take(i as int), kernel)),
            best is Some ==> best->0.start <= best->0.end,
        decreases memory@.len() - i,
    {
        let (start, size) = memory[i];
        let base = Span { start: round_up_page(start), end: round_up_page(start + size) };
        proof {
            assert(memory@.take(i + 1).drop_last() =~= memory@.take(i as int));
            assert(memory@.take(i + 1).last() == memory@[i as int]);
            assert(base == page_span(memory@[i as int]));
            assert(base.start <= base.end) by {
                vstd::arithmetic::div_mod::lemma_div_is_ordered(start + 4095, start + size + 4095, 4096);
            }
        }
        let ghost c = candidates(memory@.take(i as int), kernel);
        let (left, right) = exclude_range_from_range(&base, &kernel);
        if let Some(s) = left {
            proof {
                lemma_largest_push(c, s);
            }
            best = match best {
                None => Some(s),
                Some(b) => if b.end - b.start < s.end - s.start {
                    Some(s)
                } else {
                    Some(b)
                },
            };
        }
        if let Some(s) = right {
            proof {
                lemma_largest_push(c + opt_seq(left), s);
                assert(c + opt_seq(left) + seq![s] =~= (c + opt_seq(left)).push(s));
            }
            best = match best {
                None => Some(s),
                Some(b) => if b.end - b.start < s.end - s.start {
                    Some(s)
                } else {
                    Some(b)
                },
            };
        }
        proof {
            assert(pieces(memory@[i as int], kernel) =~= opt_seq(left) + opt_seq(right));
            assert(candidates(memory@.take(i + 1), kernel) =~= c + opt_seq(left) + opt_seq(right));
            if left is Some {
                assert(c + opt_seq(left) =~= c.push(left->0));
            } else {
                assert(c + opt_seq(left) =~= c);
            }
            if right is None {
                assert(c + opt_seq(left) + opt_seq(right) =~= c + opt_seq(left));
            }
        }
        i += 1;
    }
    proof {
        assert(memory@.take(memory@.len() as int) =~= memory@);
    }
    proof {
        lemma_largest_some(candidates(memory@, kernel));
    }
    match best {
        Some(s) => Region { addr: PAddr(s.start), size: s.end - s.start },
        None => Region { addr: PAddr(0), size: 0 },
    }
}

/// `largest` finds a candidate exactly when there is one.
pub proof fn lemma_largest_some(c: Seq<Span>)
    ensures
        largest(c) is Some <==> c.len() > 0,
{
}

/// Whether the memory map `memory` leaves any candidate region once the
/// kernel image `kernel` is taken out.
pub fn has_candidate(memory: &Vec<(usize, usize)>, kernel: Span) -> (r: bool)
    requires
        forall|i: int| 0 <= i < memory@.len() ==> #[trigger] memory@[i].0 + memory@[i].1 + 4095 <= usize::MAX,
    ensures
        r == (candidates(memory@, kernel).len() > 0),
{
    let mut found = false;
    let mut i: usize = 0;
    while i < memory.len()
        invariant
            i <= memory@.len(),
            forall|i: int| 0 <= i < memory@.len() ==> #[trigger] memory@[i].0 + memory@[i].1 + 4095 <= usize::MAX,
            found == (candidates(memory@.take(i as int), kernel).len() > 0),
        decreases memory@.len() - i,
    {
        let (start, size) = memory[i];
        let base = Span { start: round_up_page(start), end: round_up_page(start + size) };
        let (left, right) = exclude_range_from_range(&base, &kernel);
        proof {
            assert(memory@.take(i + 1).drop_last() =~= memory@.take(i as int));
            assert(memory@.take(i + 1).last() == memory@[i as int]);
            assert(base == page_span(memory@[i as int]));
            assert(pieces(memory@[i as int], kernel) =~= opt_seq(left) + opt_seq(right));
        }
        found = found || left.is_some() || right.is_some();
        i += 1;
    }
    proof {
        assert(memory@.take(memory@.len() as int) =~= memory@);
    }
    found
}

} // verus!
