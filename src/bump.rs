//! The bootstrap bump heap: a cursor over a byte range reserved at link time,
//! used before the buddy allocator is online. It only moves forward.
use vstd::prelude::*;

verus! {

pub struct KernelHeap {
    cursor: usize,
    end: usize,
}

impl KernelHeap {
    pub closed spec fn cursor_spec(&self) -> int {
        self.cursor as int
    }

    pub closed spec fn end_spec(&self) -> int {
        self.end as int
    }

    /// The cursor never passes the end.
    pub open spec fn wf(&self) -> bool {
        self.cursor_spec() <= self.end_spec()
    }

    /// A heap over `[start, end)`, its cursor at `start`.
    pub fn init(start: usize, end: usize) -> (r: Self)
        requires
            start <= end,
        ensures
            r.wf(),
            r.cursor_spec() == start,
            r.end_spec() == end,
    {
        KernelHeap { cursor: start, end }
    }

    /// Bytes left.
    pub fn available(&self) -> (r: usize)
        requires
            self.wf(),
        ensures
            r == self.end_spec() - self.cursor_spec(),
    {
        self.end - self.cursor
    }

    /// Reserves `size` bytes: returns the cursor and advances it by `size`,
    /// or `None`, leaving the heap as it is, when fewer than `size` bytes are
    /// left.
    pub fn reserve(&mut self, size: usize) -> (r: Option<usize>)
        requires
            old(self).wf(),
        ensures
            final(self).wf(),
            final(self).end_spec() == old(self).end_spec(),
            old(self).end_spec() - old(self).cursor_spec() < size ==> r is None && final(self).cursor_spec()
                == old(self).cursor_spec(),
            old(self).end_spec() - old(self).cursor_spec() >= size ==> r == Some(old(self).cursor_spec() as usize)
                && final(self).cursor_spec() == old(self).cursor_spec() + size,
    {
        if self.available() < size {
            return None;
        }
        let ptr = self.cursor;
        self.cursor = self.cursor + size;
        Some(ptr)
    }
}

} // verus!
