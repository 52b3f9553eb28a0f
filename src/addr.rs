use vstd::prelude::*;

verus! {

/// A physical address.
#[derive(Clone, Copy, Debug, PartialEq, Eq, Structural, Hash, Default)]
pub struct PAddr(pub usize);

/// A virtual address.
#[derive(Clone, Copy, Debug, PartialEq, Eq, Structural, Hash, Default)]
pub struct VAddr(pub usize);

/// Size of a page and of the smallest allocation unit.
pub const PAGE_SIZE: usize = 4096;

impl PAddr {
    pub fn addr(self) -> (r: usize)
        ensures
            r == self.0,
    {
        self.0
    }

    pub fn zero() -> (r: Self)
        ensures
            r.0 == 0,
    {
        PAddr(0)
    }

    /// Sum of two addresses.
    pub fn add(self, rhs: PAddr) -> (r: PAddr)
        requires
            self.0 + rhs.0 <= usize::MAX,
        ensures
            r.0 == self.0 + rhs.0,
    {
        PAddr(self.0 + rhs.0)
    }

    /// An address is aligned when its low twelve bits are zero.
    pub fn is_aligned(self) -> (r: bool)
        ensures
            r == (self.0 % 4096 == 0),
    {
        self.0 % PAGE_SIZE == 0
    }
}

impl VAddr {
    pub fn addr(self) -> (r: usize)
        ensures
            r == self.0,
    {
        self.0
    }

    pub fn zero() -> (r: Self)
        ensures
            r.0 == 0,
    {
        VAddr(0)
    }

    /// Sum of two addresses.
    pub fn add(self, rhs: VAddr) -> (r: VAddr)
        requires
            self.0 + rhs.0 <= usize::MAX,
        ensures
            r.0 == self.0 + rhs.0,
    {
        VAddr(self.0 + rhs.0)
    }

    /// An address is aligned when its low twelve bits are zero.
    pub fn is_aligned(self) -> (r: bool)
        ensures
            r == (self.0 % 4096 == 0),
    {
        self.0 % PAGE_SIZE == 0
    }
}

/// A contiguous range of physical memory `[addr, addr + size)`.
#[derive(Clone, Copy, Debug, PartialEq, Eq, Structural)]
pub struct Region {
    pub addr: PAddr,
    pub size: usize,
}

impl Region {
    /// The end of the region does not overflow the address space.
    pub open spec fn wf(&self) -> bool {
        self.addr.0 + self.size <= usize::MAX
    }

    pub open spec fn end_spec(&self) -> int {
        self.addr.0 + self.size
    }

    pub fn end(&self) -> (r: PAddr)
        requires
            self.wf(),
        ensures
            r.0 == self.end_spec(),
    {
        self.addr.add(PAddr(self.size))
    }
}

/// A half-open range `[start, end)` of addresses.
#[derive(Clone, Copy, Debug, PartialEq, Eq, Structural)]
pub struct Span {
    pub start: usize,
    pub end: usize,
}

impl Span {
    pub open spec fn contains(&self, x: int) -> bool {
        self.start <= x < self.end
    }
}

pub open spec fn spans_disjoint(a: Span, b: Span) -> bool {
    a.end <= b.start || b.end <= a.start
}

/// What is left of `base` strictly below `other`, when the two overlap.
pub open spec fn left_rest(base: Span, other: Span) -> Option<Span> {
    if base.start < other.start {
        Some(Span { start: base.start, end: other.start })
    } else {
        None
    }
}

/// What is left of `base` strictly above `other`, when the two overlap.
pub open spec fn right_rest(base: Span, other: Span) -> Option<Span> {
    if base.end > other.end {
        Some(Span { start: other.end, end: base.end })
    } else {
        None
    }
}

pub open spec fn opt_contains(s: Option<Span>, x: int) -> bool {
    match s {
        Some(s) => s.contains(x),
        None => false,
    }
}

/// Removes `other` from `base`, giving zero, one or two pieces: the part
/// below `other` and the part above it. When the two do not overlap, `base`
/// comes back whole as the first piece.
pub fn exclude_range_from_range(base: &Span, other: &Span) -> (r: (Option<Span>, Option<Span>))
    ensures
        spans_disjoint(*base, *other) ==> r == (Some(*base), None::<Span>),
        !spans_disjoint(*base, *other) ==> r == (left_rest(*base, *other), right_rest(*base, *other)),
        forall|x: int|
            opt_contains(r.0, x) || opt_contains(r.1, x) <==> base.contains(x) && !other.contains(x),
{
    if base.end <= other.start || other.end <= base.start {
        return (Some(*base), None);
    }
    let mut left: Option<Span> = None;
    let mut right: Option<Span> = None;
    if base.start < other.start {
        left = Some(Span { start: base.start, end: other.start });
    }
    if base.end > other.end {
        right = Some(Span { start: other.end, end: base.end });
    }
    (left, right)
}

} // verus!
