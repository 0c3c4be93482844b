//! Physical memory that pages are moved to and from.

use vstd::prelude::*;

use crate::paged_object_store::MAYHEAP_LEN;
use crate::PAGE_SIZE;

verus! {

/// A range of physical addresses.
#[derive(Clone, Copy, Debug, PartialEq, Eq, Structural)]
pub struct PhysRange {
    /// The first address of the range.
    pub start: u64,
    /// The address behind the last one.
    pub end: u64,
}

impl PhysRange {
    /// Whether the range does not end before it starts.
    pub open spec fn ordered(self) -> bool {
        self.start <= self.end
    }

    /// How many addresses the range holds.
    pub open spec fn bytes(self) -> int {
        self.end - self.start
    }

    /// How many whole pages the range holds.
    pub open spec fn pages(self) -> int {
        self.bytes() / PAGE_SIZE as int
    }
}

const PAGED_MEM_WIRED: u32 = 1;

const PAGED_MEM_COMPLETED: u32 = 2;

/// Physical memory for a page request, and how far the request has come with it.
#[derive(Clone, Copy, Debug, PartialEq, Eq, Structural)]
pub struct PagedPhysMem {
    /// The memory.
    pub range: PhysRange,
    flags: u32,
}

impl PagedPhysMem {
    /// The memory.
    pub closed spec fn mem(self) -> PhysRange {
        self.range
    }

    /// The flags as they are stored.
    pub closed spec fn flag_bits(self) -> u32 {
        self.flags
    }

    /// Whether the flags are ones that this type gives a meaning.
    pub closed spec fn wf(self) -> bool {
        self.flags < 4
    }

    /// Whether every page of the memory has been moved.
    pub closed spec fn done(self) -> bool {
        self.flags & PAGED_MEM_COMPLETED != 0
    }

    /// Whether the memory must stay in place.
    pub closed spec fn pinned(self) -> bool {
        self.flags & PAGED_MEM_WIRED != 0
    }

    /// The same memory, every page of it moved.
    pub closed spec fn finished(self) -> PagedPhysMem {
        PagedPhysMem { range: self.range, flags: self.flags | PAGED_MEM_COMPLETED }
    }

    /// The same memory, cut off at `end`.
    pub closed spec fn cut(self, end: u64) -> PagedPhysMem {
        PagedPhysMem { range: PhysRange { start: self.range.start, end }, flags: self.flags }
    }

    /// How many whole pages the memory holds.
    pub open spec fn pages(self) -> int {
        self.mem().pages()
    }

    /// Finishing memory sets the one flag and leaves the rest of it alone.
    pub proof fn lemma_finished(self)
        ensures
            self.finished().done(),
            self.finished().mem() == self.mem(),
            self.finished().pinned() == self.pinned(),
            self.wf() ==> self.finished().wf(),
            self.done() ==> self.finished() == self,
    {
        let f = self.flags;
        assert((f | 2) & 2 != 0 && (f | 2) & 1 == f & 1 && (f < 4 ==> (f | 2) < 4) && (f & 2 != 0
            ==> f | 2 == f)) by (bit_vector);
    }

    /// Cutting memory off leaves its start and its flags alone.
    pub proof fn lemma_cut(self, end: u64)
        ensures
            self.cut(end).mem() == (PhysRange { start: self.mem().start, end }),
            self.cut(end).flag_bits() == self.flag_bits(),
            self.cut(end).done() == self.done(),
            self.cut(end).pinned() == self.pinned(),
            self.cut(end).wf() == self.wf(),
            self.cut(self.mem().end) == self,
    {
    }

    /// Fresh memory: nothing moved yet, free to move.
    pub fn new(range: PhysRange) -> (mem: Self)
        ensures
            mem.mem() == range,
            mem.flag_bits() == 0,
            !mem.done(),
            !mem.pinned(),
            mem.wf(),
    {
        assert(0u32 & 1 == 0 && 0u32 & 2 == 0) by (bit_vector);
        PagedPhysMem { range, flags: 0 }
    }

    /// Whether every page of the memory has been moved.
    pub fn is_completed(&self) -> (done: bool)
        ensures
            done == self.done(),
    {
        self.flags & PAGED_MEM_COMPLETED != 0
    }

    /// Whether the memory must stay in place.
    pub fn is_wired(&self) -> (pinned: bool)
        ensures
            pinned == self.pinned(),
    {
        self.flags & PAGED_MEM_WIRED != 0
    }

    /// Notes that every page of the memory has been moved.
    pub fn set_completed(&mut self)
        ensures
            *final(self) == old(self).finished(),
            final(self).done(),
            final(self).mem() == old(self).mem(),
            final(self).pinned() == old(self).pinned(),
            old(self).wf() ==> final(self).wf(),
    {
        proof {
            self.lemma_finished();
        }
        self.flags = self.flags | PAGED_MEM_COMPLETED;
    }

    /// The same memory, every page of it moved.
    pub fn completed(self) -> (mem: Self)
        ensures
            mem == self.finished(),
            mem.done(),
            mem.mem() == self.mem(),
            mem.pinned() == self.pinned(),
            self.wf() ==> mem.wf(),
    {
        let mut mem = self;
        mem.set_completed();
        mem
    }

    /// The same memory, held in place.
    pub fn wired(self) -> (mem: Self)
        ensures
            mem.pinned(),
            mem.mem() == self.mem(),
            mem.done() == self.done(),
            mem.flag_bits() == self.flag_bits() | 1,
            self.wf() ==> mem.wf(),
    {
        let mut mem = self;
        mem.set_wired();
        mem
    }

    /// Notes that the memory must stay in place.
    pub fn set_wired(&mut self)
        ensures
            final(self).pinned(),
            final(self).mem() == old(self).mem(),
            final(self).done() == old(self).done(),
            final(self).flag_bits() == old(self).flag_bits() | 1,
            old(self).wf() ==> final(self).wf(),
    {
        let ghost f = self.flags;
        assert((f | 1) & 1 != 0 && (f | 1) & 2 == f & 2 && (f < 4 ==> (f | 1) < 4)) by (bit_vector);
        self.flags = self.flags | PAGED_MEM_WIRED;
    }

    /// How many bytes the memory holds.
    pub fn len(&self) -> (len: usize)
        requires
            self.mem().ordered(),
            self.mem().bytes() <= usize::MAX,
        ensures
            len == self.mem().bytes(),
    {
        (self.range.end - self.range.start) as usize
    }

    /// How many whole pages the memory holds.
    pub fn nr_pages(&self) -> (nr: usize)
        requires
            self.mem().ordered(),
            self.mem().bytes() <= usize::MAX,
        ensures
            nr == self.pages(),
    {
        self.len() / PAGE_SIZE
    }

    /// True if `other` carries the same flags, so the two may be reported as one run.
    pub fn same_flags(&self, other: &Self) -> (same: bool)
        ensures
            same == (self.flag_bits() == other.flag_bits()),
            self.wf() && other.wf() ==> same == (self.done() == other.done() && self.pinned()
                == other.pinned()),
    {
        let ghost f = self.flags;
        let ghost g = other.flags;
        assert(f < 4 && g < 4 && (f & 2 != 0) == (g & 2 != 0) && (f & 1 != 0) == (g & 1 != 0) ==> f
            == g) by (bit_vector);
        self.flags == other.flags
    }

    /// Keeps the first `pages` pages of the memory, and gives back the rest of it.
    pub fn split_off(&mut self, pages: usize) -> (rest: PhysRange)
        requires
            old(self).mem().start + pages * PAGE_SIZE <= u64::MAX,
        ensures
            rest.start == old(self).mem().start + pages * PAGE_SIZE,
            rest.end == old(self).mem().end,
            *final(self) == old(self).cut(rest.start),
    {
        assert(pages as u64 * PAGE_SIZE as u64 <= u64::MAX) by (nonlinear_arith)
            requires
                pages * PAGE_SIZE <= u64::MAX,
        ;
        let rest = PhysRange {
            start: self.range.start + pages as u64 * PAGE_SIZE as u64,
            end: self.range.end,
        };
        self.range = PhysRange { start: self.range.start, end: rest.start };
        rest
    }
}

/// What a `mayheap::Vec` of physical memory holds, in order.
pub uninterp spec fn phys_mems(list: mayheap::Vec<PagedPhysMem, MAYHEAP_LEN>) -> Seq<PagedPhysMem>;

/// `mayheap::Vec::new`: the new list is empty.
#[verifier::external_body]
pub(crate) fn new_phys_mems() -> (list: mayheap::Vec<PagedPhysMem, MAYHEAP_LEN>)
    ensures
        phys_mems(list) == Seq::<PagedPhysMem>::empty(),
{
    mayheap::Vec::new()
}

/// `mayheap::Vec::as_slice`: the items in order.
#[verifier::external_body]
pub(crate) fn phys_mems_slice(list: &mayheap::Vec<PagedPhysMem, MAYHEAP_LEN>) -> (slice:
    &[PagedPhysMem])
    ensures
        slice@ == phys_mems(*list),
{
    list.as_slice()
}

/// `mayheap::Vec::as_mut_slice`: the items in order, and what is written to the slice is what the
/// list then holds.
#[verifier::external_body]
pub(crate) fn phys_mems_slice_mut(list: &mut mayheap::Vec<PagedPhysMem, MAYHEAP_LEN>) -> (slice:
    &mut [PagedPhysMem])
    ensures
        slice@ == phys_mems(*old(list)),
        phys_mems(*final(list)) == final(slice)@,
{
    list.as_mut_slice()
}

/// `mayheap::Vec::truncate`: the first `len` items stay, or all of them where there are no more.
#[verifier::external_body]
pub(crate) fn truncate_phys_mems(list: &mut mayheap::Vec<PagedPhysMem, MAYHEAP_LEN>, len: usize)
    ensures
        phys_mems(*final(list)) == (if len <= phys_mems(*old(list)).len() {
            phys_mems(*old(list)).take(len as int)
        } else {
            phys_mems(*old(list))
        }),
{
    list.truncate(len)
}

/// A range holds as many pages as fit in it whole: one more would not fit.
pub proof fn lemma_pages_are_whole(range: PhysRange)
    requires
        range.start <= range.end,
    ensures
        range.ordered(),
        range.bytes() == range.end - range.start,
        range.start + range.pages() * 4096 <= range.end < range.start + (range.pages() + 1) * 4096,
{
}

/// The flags of memory are two bits: the low one holds it in place, the next one says that all of
/// its pages have been moved. Finishing memory sets that one and no other.
pub proof fn lemma_flags_are_bits(mem: PagedPhysMem)
    ensures
        mem.pinned() <==> mem.flag_bits() % 2 == 1,
        mem.done() <==> mem.flag_bits() / 2 % 2 == 1,
        mem.wf() <==> mem.flag_bits() < 4,
        !mem.done() ==> mem.finished().flag_bits() == mem.flag_bits() + 2,
        mem.done() ==> mem.finished() == mem,
        mem.finished().mem() == mem.mem(),
{
    let f = mem.flags;
    assert((f & 1 != 0 <==> f % 2 == 1) && (f & 2 != 0 <==> f / 2 % 2 == 1) && (f & 2 == 0 ==> f | 2
        == f + 2) && (f & 2 != 0 ==> f | 2 == f)) by (bit_vector);
}

} // verus!
