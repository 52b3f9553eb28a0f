//! Process records, the fixed-capacity process table, and the cooperative
//! context switch between two records.
use vstd::prelude::*;

use crate::addr::{PAddr, Region, VAddr, PAGE_SIZE};
use crate::memory::{map_page_to_heap, page_of, pages_of, windows, FramePump};
use crate::paging::{zero_table, PageFlag};

verus! {

/// Capacity of the process table.
pub const MAX_PROCESSES: usize = 8;

/// Bytes of each task's stack.
pub const STACK_SIZE: usize = 8192;

/// Bytes of a machine word (RV32).
pub const WORD_SIZE: usize = 4;

/// Words of each task's stack.
pub const STACK_WORDS: usize = 2048;

/// Registers kept on a suspended task's stack: the return address, then the
/// twelve callee-saved registers `s0` to `s11`.
pub const SAVED_REGISTERS: usize = 13;

/// Bytes of the register save area.
pub const FRAME_BYTES: usize = 52;

/// The mode field of `satp` that selects Sv32 paging.
pub const SATP_MODE_SV32: usize = 1;

#[derive(Clone, Copy, Debug, PartialEq, Eq, Structural)]
pub enum ProcState {
    Empty,
    Loaded,
}

/// A kernel task: its id, its state, its saved stack pointer (a byte offset
/// into its own stack), the root of its page table and its stack.
pub struct Proc {
    pub pid: usize,
    state: ProcState,
    pub stack_pointer: VAddr,
    page_table: PAddr,
    stack: Vec<usize>,
}

/// `stack` with the `SAVED_REGISTERS` words from word `base` on replaced by `saved`.
pub open spec fn with_frame(stack: Seq<usize>, base: int, saved: Seq<usize>) -> Seq<usize> {
    Seq::new(
        stack.len(),
        |i: int|
            if base <= i < base + SAVED_REGISTERS {
                saved[i - base]
            } else {
                stack[i]
            },
    )
}

/// The register save area that starts at byte offset `sp` of `stack`.
pub open spec fn frame_at(stack: Seq<usize>, sp: int) -> Seq<usize> {
    stack.subrange(sp / 4, sp / 4 + SAVED_REGISTERS)
}

/// The save area of a task that has never run: return address `entry`, and
/// zero in every callee-saved register.
pub open spec fn initial_frame(entry: usize) -> Seq<usize> {
    Seq::new(SAVED_REGISTERS as nat, |i: int| if i == 0 { entry } else { 0usize })
}

impl Proc {
    pub closed spec fn pid_spec(&self) -> usize {
        self.pid
    }

    /// The saved stack pointer, a byte offset into the stack.
    pub closed spec fn sp_spec(&self) -> int {
        self.stack_pointer.0 as int
    }

    pub closed spec fn state_spec(&self) -> ProcState {
        self.state
    }

    pub closed spec fn stack_spec(&self) -> Seq<usize> {
        self.stack@
    }

    pub closed spec fn page_table_spec(&self) -> PAddr {
        self.page_table
    }

    /// A full stack, and a word-aligned stack pointer within it.
    pub open spec fn wf(&self) -> bool {
        &&& self.stack_spec().len() == STACK_WORDS
        &&& self.sp_spec() % 4 == 0
        &&& 0 <= self.sp_spec() <= STACK_SIZE
    }

    /// An empty slot of the process table.
    pub fn placeholder() -> (r: Self)
        ensures
            r.wf(),
            r.pid_spec() == 0,
            r.state_spec() == ProcState::Empty,
            r.sp_spec() == 0,
            r.page_table_spec().0 == 0,
            r.stack_spec() == Seq::new(STACK_WORDS as nat, |i: int| 0usize),
    {
        let r = Proc {
            pid: 0,
            state: ProcState::Empty,
            stack_pointer: VAddr::zero(),
            page_table: PAddr::zero(),
            stack: vec![0usize; STACK_WORDS],
        };
        assert(r.stack@ =~= Seq::new(STACK_WORDS as nat, |i: int| 0usize));
        r
    }

    pub fn state(&self) -> (r: ProcState)
        ensures
            r == self.state_spec(),
    {
        self.state
    }

    pub fn page_table(&self) -> (r: PAddr)
        ensures
            r == self.page_table_spec(),
    {
        self.page_table
    }

    /// Word `i` of the stack.
    pub fn stack_word(&self, i: usize) -> (r: usize)
        requires
            self.wf(),
            i < STACK_WORDS,
        ensures
            r == self.stack_spec()[i as int],
    {
        self.stack[i]
    }

    /// Writes `saved` into the stack from word `base` on.
    #[verifier::rlimit(30)]
    fn write_frame(&mut self, base: usize, saved: &Vec<usize>)
        requires
            old(self).wf(),
            base + SAVED_REGISTERS <= STACK_WORDS,
            saved@.len() == SAVED_REGISTERS,
        ensures
            final(self).wf(),
            final(self).stack@ == with_frame(old(self).stack@, base as int, saved@),
            final(self).pid == old(self).pid,
            final(self).state == old(self).state,
            final(self).stack_pointer == old(self).stack_pointer,
            final(self).page_table == old(self).page_table,
    {
        let mut j: usize = 0;
        while j < SAVED_REGISTERS
            invariant
                j <= SAVED_REGISTERS,
                base + SAVED_REGISTERS <= STACK_WORDS,
                saved@.len() == SAVED_REGISTERS,
                self.stack@.len() == STACK_WORDS,
                self.stack@ == with_frame(old(self).stack@, base as int, saved@.take(j as int) + old(self).stack@.subrange(base + j, base + SAVED_REGISTERS)),
                self.pid == old(self).pid,
                self.state == old(self).state,
                self.stack_pointer == old(self).stack_pointer,
                self.page_table == old(self).page_table,
                old(self).wf(),
            decreases SAVED_REGISTERS - j,
        {
            self.stack.set(base + j, saved[j]);
            proof {
                assert(self.stack@ =~= with_frame(old(self).stack@, base as int, saved@.take(j + 1) + old(self).stack@.subrange(base + j + 1, base + SAVED_REGISTERS)));
            }
            j += 1;
        }
        proof {
            assert(saved@.take(SAVED_REGISTERS as int) + old(self).stack@.subrange(base + SAVED_REGISTERS, base + SAVED_REGISTERS) =~= saved@);
        }
    }

    /// Reads the save area at the stack pointer.
    fn read_frame(&self) -> (r: Vec<usize>)
        requires
            self.wf(),
            self.stack_pointer.0 + FRAME_BYTES <= STACK_SIZE,
        ensures
            r@ == frame_at(self.stack@, self.stack_pointer.0 as int),
    {
        let base = self.stack_pointer.0 / WORD_SIZE;
        let mut r: Vec<usize> = Vec::new();
        let mut j: usize = 0;
        while j < SAVED_REGISTERS
            invariant
                j <= SAVED_REGISTERS,
                base == self.stack_pointer.0 / 4,
                base + SAVED_REGISTERS <= STACK_WORDS,
                self.stack@.len() == STACK_WORDS,
                r@ == self.stack@.subrange(base as int, base + j),
            decreases SAVED_REGISTERS - j,
        {
            r.push(self.stack[base + j]);
            proof {
                assert(r@ =~= self.stack@.subrange(base as int, base + j + 1));
            }
            j += 1;
        }
        r
    }
}

/// What a context switch hands to the hardware side: the value for `satp`,
/// the value for `sscratch` (the top of the next task's stack, as an offset
/// into it) and the registers to restore, return address first.
pub struct SwitchOutcome {
    pub satp: usize,
    pub sscratch: usize,
    pub restored: Vec<usize>,
}

/// The context switch from `prev` to `next`, saving `saved`: `prev` pushes
/// the save area and records the new stack pointer; `next` pops its save area.
pub open spec fn switch_post(
    prev: Proc,
    next: Proc,
    saved: Seq<usize>,
    prev2: Proc,
    next2: Proc,
    satp: usize,
    sscratch: usize,
    restored: Seq<usize>,
) -> bool {
    &&& prev2.wf()
    &&& next2.wf()
    &&& prev2.sp_spec() == prev.sp_spec() - FRAME_BYTES
    &&& prev2.stack_spec() == with_frame(prev.stack_spec(), prev2.sp_spec() / 4, saved)
    &&& prev2.pid_spec() == prev.pid_spec() && prev2.state_spec() == prev.state_spec()
    &&& prev2.page_table_spec() == prev.page_table_spec()
    &&& next2.sp_spec() == next.sp_spec() + FRAME_BYTES
    &&& next2.stack_spec() == next.stack_spec()
    &&& next2.pid_spec() == next.pid_spec() && next2.state_spec() == next.state_spec()
    &&& next2.page_table_spec() == next.page_table_spec()
    &&& restored == frame_at(next.stack_spec(), next.sp_spec())
    &&& satp == SATP_MODE_SV32 * 0x8000_0000 + next.page_table_spec().0 / 4096
    &&& sscratch == STACK_SIZE
}

impl Proc {
    /// Switches from `previous` to `next`: the callee-saved registers
    /// `saved` (return address first) go onto `previous`'s stack, and `next`'s
    /// save area comes back to be restored.
    pub fn switch_context(previous: &mut Proc, next: &mut Proc, saved: &Vec<usize>) -> (r: SwitchOutcome)
        requires
            old(previous).wf(),
            old(next).wf(),
            saved@.len() == SAVED_REGISTERS,
            old(previous).sp_spec() >= FRAME_BYTES,
            old(next).sp_spec() + FRAME_BYTES <= STACK_SIZE,
            old(next).page_table_spec().0 / 4096 < 0x8000_0000,
        ensures
            switch_post(
                *old(previous),
                *old(next),
                saved@,
                *final(previous),
                *final(next),
                r.satp,
                r.sscratch,
                r.restored@,
            ),
    {
        let satp = SATP_MODE_SV32 * 0x8000_0000 + next.page_table.addr() / PAGE_SIZE;
        let sscratch = STACK_SIZE;
        let sp = previous.stack_pointer.0 - FRAME_BYTES;
        previous.stack_pointer = VAddr(sp);
        previous.write_frame(sp / WORD_SIZE, saved);
        let restored = next.read_frame();
        next.stack_pointer = VAddr(next.stack_pointer.0 + FRAME_BYTES);
        SwitchOutcome { satp, sscratch, restored }
    }
}

/// Switching from `a` to `b` and then back from `b` to `a` restores to `a`
/// the registers that it saved at the first switch.
pub proof fn lemma_switch_round_trip(
    a0: Proc,
    b0: Proc,
    a1: Proc,
    b1: Proc,
    a2: Proc,
    b2: Proc,
    saved_a: Seq<usize>,
    saved_b: Seq<usize>,
    satp1: usize,
    sscratch1: usize,
    restored1: Seq<usize>,
    satp2: usize,
    sscratch2: usize,
    restored2: Seq<usize>,
)
    requires
        a0.wf(),
        saved_a.len() == SAVED_REGISTERS,
        switch_post(a0, b0, saved_a, a1, b1, satp1, sscratch1, restored1),
        switch_post(b1, a1, saved_b, b2, a2, satp2, sscratch2, restored2),
    ensures
        restored2 == saved_a,
        a2.sp_spec() == a0.sp_spec(),
        satp2 == SATP_MODE_SV32 * 0x8000_0000 + a0.page_table_spec().0 / 4096,
{
    assert(restored2 =~= saved_a);
}


/// The index of the first empty slot at or after `i`, or the length.
pub open spec fn first_empty(procs: Seq<Proc>, i: int) -> int
    decreases procs.len() - i,
{
    if i >= procs.len() {
        procs.len() as int
    } else if procs[i].state_spec() == ProcState::Empty {
        i
    } else {
        first_empty(procs, i + 1)
    }
}

/// The table of kernel tasks, all empty at first, and the last pid given.
pub struct ProcTable {
    procs: Vec<Proc>,
    pid_next: usize,
}

impl ProcTable {
    pub closed spec fn procs_spec(&self) -> Seq<Proc> {
        self.procs@
    }

    pub closed spec fn pid_next_spec(&self) -> int {
        self.pid_next as int
    }

    /// Every slot holds a well-formed record.
    pub open spec fn wf(&self) -> bool {
        &&& self.procs_spec().len() == MAX_PROCESSES
        &&& forall|i: int| 0 <= i < MAX_PROCESSES ==> (#[trigger] self.procs_spec()[i]).wf()
    }

    pub open spec fn has_empty(&self) -> bool {
        first_empty(self.procs_spec(), 0) < MAX_PROCESSES
    }

    pub fn new() -> (r: Self)
        ensures
            r.wf(),
            r.pid_next_spec() == 0,
            forall|i: int| 0 <= i < MAX_PROCESSES ==> (#[trigger] r.procs_spec()[i]).state_spec() == ProcState::Empty,
    {
        let mut procs: Vec<Proc> = Vec::new();
        let mut i: usize = 0;
        while i < MAX_PROCESSES
            invariant
                i <= MAX_PROCESSES,
                procs@.len() == i,
                forall|j: int| 0 <= j < i ==> (#[trigger] procs@[j]).wf() && procs@[j].state_spec() == ProcState::Empty,
            decreases MAX_PROCESSES - i,
        {
            procs.push(Proc::placeholder());
            i += 1;
        }
        ProcTable { procs, pid_next: 0 }
    }

    /// The record in slot `i`.
    pub fn get(&self, i: usize) -> (r: &Proc)
        requires
            i < self.procs_spec().len(),
        ensures
            *r == self.procs_spec()[i as int],
    {
        &self.procs[i]
    }

    /// Whether some slot is empty.
    pub fn has_empty_slot(&self) -> (r: bool)
        requires
            self.wf(),
        ensures
            r == self.has_empty(),
    {
        self.find_empty() < MAX_PROCESSES
    }

    /// The last pid given out.
    pub fn pid_next(&self) -> (r: usize)
        ensures
            r == self.pid_next_spec(),
    {
        self.pid_next
    }

    fn find_empty(&self) -> (r: usize)
        requires
            self.wf(),
        ensures
            r == first_empty(self.procs@, 0),
    {
        let mut i: usize = 0;
        while i < self.procs.len()
            invariant
                i <= self.procs@.len(),
                first_empty(self.procs@, i as int) == first_empty(self.procs@, 0),
            decreases self.procs@.len() - i,
        {
            if self.procs[i].state == ProcState::Empty {
                return i;
            }
            i += 1;
        }
        i
    }

    /// Creates a task that starts at `entry`, in the first empty slot, and
    /// returns the slot. Its stack holds a save area whose return address is
    /// `entry` and whose callee-saved registers are zero; its page table is a
    /// fresh frame of `pump` that identity-maps the heap region `heap` and
    /// the kernel image `kernel` with read, write and execute; its pid is the
    /// next one.
    #[verifier::rlimit(30)]
    pub fn create(&mut self, pump: &mut FramePump, entry: usize, heap: Region, kernel: Region) -> (slot: usize)
        requires
            old(self).wf(),
            old(self).has_empty(),
            old(self).pid_next_spec() < usize::MAX,
            old(pump).wf(),
            old(pump).available_spec() >= 1 + windows(heap) + windows(kernel),
            heap.wf(),
            heap.addr.0 % 4096 == 0,
            heap.end_spec() <= 0x1_0000_0000,
            kernel.wf(),
            kernel.addr.0 % 4096 == 0,
            kernel.end_spec() <= 0x1_0000_0000,
        ensures
            final(self).wf(),
            slot == first_empty(old(self).procs_spec(), 0),
            final(self).pid_next_spec() == old(self).pid_next_spec() + 1,
            ({
                let p = final(self).procs_spec()[slot as int];
                let q = old(self).procs_spec()[slot as int];
                let root = old(pump).next_spec();
                &&& p.pid_spec() == old(self).pid_next_spec() + 1
                &&& p.state_spec() == ProcState::Loaded
                &&& p.sp_spec() == STACK_SIZE - FRAME_BYTES
                &&& p.stack_spec() == with_frame(q.stack_spec(), (STACK_WORDS - SAVED_REGISTERS) as int, initial_frame(entry))
                &&& p.page_table_spec().0 == root
                &&& final(pump).wf()
                &&& final(pump).region_spec() == old(pump).region_spec()
                &&& final(pump).next_spec() <= old(pump).next_spec() + 4096 * (1 + windows(heap) + windows(
                    kernel,
                ))
                &&& final(pump).tree_ok(root)
                &&& final(pump).maps_region(root, kernel, 14)
                &&& forall|j: int|
                    0 <= j < pages_of(heap) && !(kernel.addr.0 <= #[trigger] page_of(heap, j) < kernel.end_spec())
                        ==> final(pump).maps(root, page_of(heap, j), page_of(heap, j), 14)
            }),
            forall|i: int|
                0 <= i < MAX_PROCESSES && i != slot ==> #[trigger] final(self).procs_spec()[i] == old(self).procs_spec()[i],
    {
        let slot = self.find_empty();
        let mut p = Proc::placeholder();
        self.procs.set_and_swap(slot, &mut p);
        let ghost q = p;
        proof {
            assert(q == old(self).procs@[slot as int]);
            assert(q.wf());
        }
        // s11 down to s0, then the return address
        let mut frame: Vec<usize> = vec![0usize; SAVED_REGISTERS];
        frame.set(0, entry);
        proof {
            assert(frame@ =~= initial_frame(entry));
        }
        p.write_frame(STACK_WORDS - SAVED_REGISTERS, &frame);

        let ghost p0 = *pump;
        let page_table = pump.allocate(1);
        let ghost p1 = *pump;
        proof {
            assert(p1.tables() =~= p0.tables().push(zero_table()));
            assert(p1.tables()[p1.frame_of(page_table.0 as int)] == zero_table());
            assert(p1.tree_ok(page_table.0 as int));
        }
        let rwx = PageFlag::read_write_execute();
        map_page_to_heap(pump, page_table, heap, rwx);
        let ghost p2 = *pump;
        // map the kernel image
        map_page_to_heap(pump, page_table, kernel, rwx);
        proof {
            assert forall|j: int|
                0 <= j < pages_of(heap) && !(kernel.addr.0 <= #[trigger] page_of(heap, j) < kernel.end_spec())
                    implies pump.maps(page_table.0 as int, page_of(heap, j), page_of(heap, j), 14) by {
                assert(p2.maps(page_table.0 as int, page_of(heap, j), page_of(heap, j), 14));
                crate::memory::lemma_page_in_region(heap, j);
            }
        }

        self.pid_next = self.pid_next + 1;
        p.pid = self.pid_next;
        p.stack_pointer = VAddr(STACK_SIZE - FRAME_BYTES);
        p.state = ProcState::Loaded;
        p.page_table = page_table;
        self.procs.set_and_swap(slot, &mut p);
        proof {
            assert forall|i: int| 0 <= i < MAX_PROCESSES implies (#[trigger] self.procs@[i]).wf() by {
                if i != slot {
                    assert(self.procs@[i] == old(self).procs@[i]);
                }
            }
        }
        slot
    }

    /// Switches from the task in slot `from` to the task in slot `to`; see
    /// `Proc::switch_context`.
    pub fn switch(&mut self, from: usize, to: usize, saved: &Vec<usize>) -> (r: SwitchOutcome)
        requires
            old(self).wf(),
            from < MAX_PROCESSES,
            to < MAX_PROCESSES,
            from != to,
            saved@.len() == SAVED_REGISTERS,
            old(self).procs_spec()[from as int].sp_spec() >= FRAME_BYTES,
            old(self).procs_spec()[to as int].sp_spec() + FRAME_BYTES <= STACK_SIZE,
            old(self).procs_spec()[to as int].page_table_spec().0 / 4096 < 0x8000_0000,
        ensures
            final(self).wf(),
            final(self).pid_next_spec() == old(self).pid_next_spec(),
            switch_post(
                old(self).procs_spec()[from as int],
                old(self).procs_spec()[to as int],
                saved@,
                final(self).procs_spec()[from as int],
                final(self).procs_spec()[to as int],
                r.satp,
                r.sscratch,
                r.restored@,
            ),
            forall|i: int|
                0 <= i < MAX_PROCESSES && i != from && i != to ==> #[trigger] final(self).procs_spec()[i]
                    == old(self).procs_spec()[i],
    {
        let mut a = Proc::placeholder();
        let mut b = Proc::placeholder();
        self.procs.set_and_swap(from, &mut a);
        self.procs.set_and_swap(to, &mut b);
        let r = Proc::switch_context(&mut a, &mut b, saved);
        self.procs.set_and_swap(from, &mut a);
        self.procs.set_and_swap(to, &mut b);
        proof {
            assert forall|i: int| 0 <= i < MAX_PROCESSES implies (#[trigger] self.procs@[i]).wf() by {
                if i != from && i != to {
                    assert(self.procs@[i] == old(self).procs@[i]);
                }
            }
        }
        r
    }
}

} // verus!
