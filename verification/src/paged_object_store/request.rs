//! A request to move pages of one object between the device and physical memory.
//!
//! Moving pages alternates decisions and device transfers. The decisions are here: a [`Transfer`]
//! says where a request stands, [`PageRequest::step`] says what to do next, and
//! [`PageRequest::record`] takes the answer of the device.

use vstd::prelude::*;

use crate::error::ErrorKind;
use crate::num;
use crate::paged_object_store::device_page;
use crate::paged_object_store::device_page::DevicePage;
use crate::paged_object_store::phys_mem;
use crate::paged_object_store::phys_mem::PagedPhysMem;
use crate::paged_object_store::phys_mem::PhysRange;
use crate::paged_object_store::MAYHEAP_LEN;
use crate::PAGE_SIZE;

verus! {

/// A request to move pages of one object.
#[derive(Debug)]
pub struct PageRequest {
    /// The first object page.
    pub start_page: i64,
    /// How many object pages.
    pub nr_pages: u32,
    /// How many of them have been moved.
    pub completed: u32,
    /// The memory that the pages are moved to or from, in the order of the pages.
    pub phys_list: mayheap::Vec<PagedPhysMem, MAYHEAP_LEN>,
}

/// What a [`PageRequest`] says.
#[verifier::ext_equal]
pub struct RequestView {
    /// The first object page.
    pub start_page: int,
    /// How many object pages.
    pub nr_pages: int,
    /// How many of them have been moved.
    pub completed: int,
    /// The memory, in the order of the pages.
    pub list: Seq<PagedPhysMem>,
}

impl View for PageRequest {
    type V = RequestView;

    open spec fn view(&self) -> RequestView {
        RequestView {
            start_page: self.start_page as int,
            nr_pages: self.nr_pages as int,
            completed: self.completed as int,
            list: phys_mem::phys_mems(self.phys_list),
        }
    }
}

/// How far a request has come.
#[derive(Clone, Copy, Debug, PartialEq, Eq, Structural)]
pub struct Transfer {
    /// The entry of the memory that the next page goes to.
    pub cursor: usize,
    /// How many pages of that entry are filled.
    pub inner_cursor: usize,
    /// How many pages the finished runs hold.
    pub tfer_count: usize,
    /// The run in progress.
    pub next: usize,
    /// How many pages of it have been moved.
    pub count: usize,
}

/// What is to be done next.
#[derive(Clone, Copy, Debug, PartialEq, Eq, Structural)]
pub enum Step {
    /// Ask for the next step.
    Continue,
    /// Move pages between the blocks from `start` on and the memory from the cursor on.
    Move {
        /// The first block.
        start: u64,
        /// How many pages to move at most.
        nr_pages: usize,
    },
    /// Nothing is left to do.
    Done,
}

/// How many pages a list of memory holds.
pub open spec fn total_pages(list: Seq<PagedPhysMem>) -> int
    decreases list.len(),
{
    if list.len() == 0 {
        0
    } else {
        total_pages(list.drop_last()) + list.last().pages()
    }
}

/// How many pages the finished entries of a list hold.
pub open spec fn done_pages(list: Seq<PagedPhysMem>) -> int
    decreases list.len(),
{
    if list.len() == 0 {
        0
    } else {
        done_pages(list.drop_last()) + if list.last().done() {
            list.last().pages()
        } else {
            0
        }
    }
}

/// How many pages the finished entries of a list hold, each entry counted in 32 bits.
pub open spec fn tally(list: Seq<PagedPhysMem>) -> int
    decreases list.len(),
{
    if list.len() == 0 {
        0
    } else {
        tally(list.drop_last()) + if list.last().done() {
            list.last().pages() % num::two32()
        } else {
            0
        }
    }
}

/// Whether every entry of a list is a range whose length a `usize` holds.
pub open spec fn sound(list: Seq<PagedPhysMem>) -> bool {
    forall|i: int|
        0 <= i < list.len() ==> (#[trigger] list[i]).mem().ordered() && list[i].mem().bytes()
            <= usize::MAX
}

/// Memory with a place in it.
#[verifier::ext_equal]
pub struct Place {
    /// The memory.
    pub list: Seq<PagedPhysMem>,
    /// The entry that the next page goes to.
    pub cursor: int,
    /// How many pages of that entry are filled.
    pub inner: int,
}

/// The place `count` pages on, every entry that is passed on the way finished. Entries that were
/// finished before take no pages.
pub open spec fn advanced(place: Place, count: int) -> Place
    decreases place.list.len() - place.cursor,
{
    if count <= 0 || place.cursor < 0 || place.cursor >= place.list.len() {
        place
    } else {
        let entry = place.list[place.cursor];
        if entry.done() {
            advanced(Place { cursor: place.cursor + 1, inner: 0, ..place }, count)
        } else if count >= entry.pages() - place.inner {
            advanced(
                Place {
                    list: place.list.update(place.cursor, entry.finished()),
                    cursor: place.cursor + 1,
                    inner: 0,
                },
                count - (entry.pages() - place.inner),
            )
        } else {
            Place { inner: place.inner + count, ..place }
        }
    }
}

/// How many pages still fit behind a place.
pub open spec fn room(place: Place) -> int
    decreases place.list.len() - place.cursor,
{
    if place.cursor < 0 || place.cursor >= place.list.len() {
        0
    } else {
        let entry = place.list[place.cursor];
        room(Place { cursor: place.cursor + 1, inner: 0, ..place }) + if entry.done() {
            0
        } else {
            entry.pages() - place.inner
        }
    }
}

impl Place {
    /// Whether the place lies in the memory or right behind it.
    pub open spec fn wf(self) -> bool {
        &&& sound(self.list)
        &&& 0 <= self.cursor <= self.list.len()
        &&& self.cursor == self.list.len() ==> self.inner == 0
        &&& self.cursor < self.list.len() ==> 0 <= self.inner <= self.list[self.cursor].pages()
    }
}

impl Transfer {
    /// Where the transfer stands in the memory of a request.
    pub open spec fn place(self, request: RequestView) -> Place {
        Place {
            list: request.list,
            cursor: self.cursor as int,
            inner: self.inner_cursor as int,
        }
    }

    /// Whether the transfer stands in the memory of a request.
    pub open spec fn wf(self, request: RequestView) -> bool {
        &&& self.place(request).wf()
        &&& request.list.len() <= usize::MAX
    }
}

impl RequestView {
    /// The request once its memory is that of `place`, newly finished pages counted.
    pub open spec fn moved_to(self, place: Place) -> RequestView {
        RequestView {
            completed: self.completed + tally(place.list) - tally(self.list),
            list: place.list,
            ..self
        }
    }
}

proof fn lemma_tally_update(list: Seq<PagedPhysMem>, i: int)
    requires
        0 <= i < list.len(),
        !list[i].done(),
    ensures
        tally(list.update(i, list[i].finished())) == tally(list) + list[i].pages() % num::two32(),
    decreases list.len(),
{
    list[i].lemma_finished();
    let after = list.update(i, list[i].finished());
    if i == list.len() - 1 {
        assert(after.drop_last() =~= list.drop_last());
    } else {
        lemma_tally_update(list.drop_last(), i);
        assert(after.drop_last() =~= list.drop_last().update(i, list[i].finished()));
    }
}

/// Advancing keeps a place in its memory, finishes entries and does nothing else to them, never
/// turns back, and never counts down.
pub proof fn lemma_advanced(place: Place, count: int)
    requires
        place.wf(),
    ensures
        advanced(place, count).wf(),
        advanced(place, count).list.len() == place.list.len(),
        advanced(place, count).cursor >= place.cursor,
        forall|i: int|
            0 <= i < place.list.len() ==> {
                ||| (#[trigger] advanced(place, count).list[i]) == place.list[i]
                ||| !place.list[i].done() && place.cursor <= i < advanced(place, count).cursor
                    && advanced(place, count).list[i] == place.list[i].finished()
            },
        forall|i: int|
            place.cursor <= i < advanced(place, count).cursor ==> (#[trigger] advanced(
                place,
                count,
            ).list[i]).done(),
        tally(advanced(place, count).list) >= tally(place.list),
    decreases place.list.len() - place.cursor,
{
    if count <= 0 || place.cursor >= place.list.len() {
    } else {
        let entry = place.list[place.cursor];
        if entry.done() {
            lemma_advanced(Place { cursor: place.cursor + 1, inner: 0, ..place }, count);
        } else if count >= entry.pages() - place.inner {
            entry.lemma_finished();
            lemma_tally_update(place.list, place.cursor);
            lemma_advanced(
                Place {
                    list: place.list.update(place.cursor, entry.finished()),
                    cursor: place.cursor + 1,
                    inner: 0,
                },
                count - (entry.pages() - place.inner),
            );
        }
    }
}

proof fn lemma_room_bounds(place: Place)
    requires
        place.wf(),
    ensures
        room(place) >= 0,
    decreases place.list.len() - place.cursor,
{
    if place.cursor < place.list.len() {
        lemma_room_bounds(Place { cursor: place.cursor + 1, inner: 0, ..place });
    }
}

proof fn lemma_room_update(place: Place, i: int, entry: PagedPhysMem)
    requires
        0 <= i < place.cursor,
        i < place.list.len(),
    ensures
        room(Place { list: place.list.update(i, entry), ..place }) == room(place),
    decreases place.list.len() - place.cursor,
{
    if place.cursor < place.list.len() {
        lemma_room_update(Place { cursor: place.cursor + 1, inner: 0, ..place }, i, entry);
    }
}

/// Advancing takes exactly the pages that it is told to take, as long as they fit. Where they do
/// not fit it stops right behind the memory.
pub proof fn lemma_advanced_room(place: Place, count: int)
    requires
        place.wf(),
        count >= 0,
    ensures
        count <= room(place) ==> room(advanced(place, count)) == room(place) - count,
        count > room(place) ==> advanced(place, count).cursor == place.list.len() && room(
            advanced(place, count),
        ) == 0,
    decreases place.list.len() - place.cursor,
{
    lemma_room_bounds(place);
    if count <= 0 || place.cursor >= place.list.len() {
    } else {
        let entry = place.list[place.cursor];
        let behind = Place { cursor: place.cursor + 1, inner: 0, ..place };
        if entry.done() {
            lemma_advanced_room(behind, count);
        } else if count >= entry.pages() - place.inner {
            entry.lemma_finished();
            lemma_room_update(behind, place.cursor, entry.finished());
            let marked = Place {
                list: place.list.update(place.cursor, entry.finished()),
                ..behind
            };
            lemma_advanced_room(marked, count - (entry.pages() - place.inner));
        } else {
            lemma_room_bounds(behind);
        }
    }
}

/// Whether a place lies in the memory, or anywhere behind it.
pub open spec fn placed(place: Place) -> bool {
    &&& sound(place.list)
    &&& 0 <= place.cursor
    &&& place.cursor < place.list.len() ==> 0 <= place.inner <= place.list[place.cursor].pages()
}

/// Advancing keeps a place in its memory, or anywhere behind it.
pub proof fn lemma_advanced_placed(place: Place, count: int)
    requires
        placed(place),
    ensures
        placed(advanced(place, count)),
{
    if place.cursor < place.list.len() {
        lemma_advanced(place, count);
    }
}

/// Advancing in two parts is advancing by both at once.
pub proof fn lemma_advanced_adds(place: Place, a: int, b: int)
    requires
        placed(place),
        a >= 0,
        b >= 0,
    ensures
        advanced(advanced(place, a), b) == advanced(place, a + b),
    decreases place.list.len() - place.cursor,
{
    if a > 0 && place.cursor < place.list.len() {
        let entry = place.list[place.cursor];
        let behind = Place { cursor: place.cursor + 1, inner: 0, ..place };
        if entry.done() {
            lemma_advanced_adds(behind, a, b);
        } else if a >= entry.pages() - place.inner {
            entry.lemma_finished();
            let marked = Place {
                list: place.list.update(place.cursor, entry.finished()),
                ..behind
            };
            lemma_advanced_adds(marked, a - (entry.pages() - place.inner), b);
        }
    }
}

/// Advancing a request in two parts leaves it as advancing it by both at once does: with the same
/// pages counted, the same memory and the same flags on it. Either way no range of memory changes,
/// nor which pages the request is for.
pub proof fn lemma_request_advance_adds(
    request: RequestView,
    cursor: int,
    inner: int,
    a: int,
    b: int,
)
    requires
        placed(Place { list: request.list, cursor, inner }),
        a >= 0,
        b >= 0,
    ensures
        ({
            let start = Place { list: request.list, cursor, inner };
            let first = advanced(start, a);
            let parts = request.moved_to(first).moved_to(advanced(first, b));
            let whole = request.moved_to(advanced(start, a + b));
            &&& advanced(first, b) == advanced(start, a + b)
            &&& parts == whole
            &&& whole.start_page == request.start_page
            &&& whole.nr_pages == request.nr_pages
            &&& whole.list.len() == request.list.len()
            &&& forall|i: int|
                0 <= i < request.list.len() ==> (#[trigger] whole.list[i]).mem()
                    == request.list[i].mem() && whole.list[i].pinned() == request.list[i].pinned()
        }),
{
    let start = Place { list: request.list, cursor, inner };
    lemma_advanced_adds(start, a, b);
    let after = advanced(start, a + b);
    if cursor < request.list.len() {
        lemma_advanced(start, a + b);
    }
    assert forall|i: int| 0 <= i < request.list.len() implies (#[trigger] after.list[i]).mem()
        == request.list[i].mem() && after.list[i].pinned() == request.list[i].pinned() by {
        request.list[i].lemma_finished();
    }
}

impl PageRequest {
    /// A request for `nr_pages` pages, with no memory yet.
    pub fn new(start_page: i64, nr_pages: u32) -> (request: Self)
        ensures
            request@ == (RequestView {
                start_page: start_page as int,
                nr_pages: nr_pages as int,
                completed: 0,
                list: Seq::empty(),
            }),
    {
        PageRequest { start_page, phys_list: phys_mem::new_phys_mems(), nr_pages, completed: 0 }
    }

    /// A request for `nr_pages` pages, with the memory for it.
    pub fn new_from_list(
        phys_list: mayheap::Vec<PagedPhysMem, MAYHEAP_LEN>,
        start_page: i64,
        nr_pages: u32,
    ) -> (request: Self)
        ensures
            request@ == (RequestView {
                start_page: start_page as int,
                nr_pages: nr_pages as int,
                completed: 0,
                list: phys_mem::phys_mems(phys_list),
            }),
    {
        PageRequest { start_page, phys_list, nr_pages, completed: 0 }
    }

    /// The memory of the request.
    pub fn into_list(self) -> (list: mayheap::Vec<PagedPhysMem, MAYHEAP_LEN>)
        ensures
            phys_mem::phys_mems(list) == self@.list,
    {
        self.phys_list
    }

    /// Moves a place in the memory on by `count` pages, and finishes every entry that is passed on
    /// the way. Entries that were finished before take no pages.
    ///
    /// Returns the entry that the next page goes to, and how many pages of it are filled.
    pub fn advance(&mut self, cursor: usize, inner_cursor: usize, count: usize) -> (res: (
        usize,
        usize,
    ))
        requires
            placed(
                Place { list: old(self)@.list, cursor: cursor as int, inner: inner_cursor as int },
            ),
            old(self)@.moved_to(
                advanced(
                    Place {
                        list: old(self)@.list,
                        cursor: cursor as int,
                        inner: inner_cursor as int,
                    },
                    count as int,
                ),
            ).completed <= u32::MAX,
        ensures
            ({
                let place = advanced(
                    Place {
                        list: old(self)@.list,
                        cursor: cursor as int,
                        inner: inner_cursor as int,
                    },
                    count as int,
                );
                &&& final(self)@ == old(self)@.moved_to(place)
                &&& res.0 == place.cursor
                &&& res.1 == place.inner
                &&& placed(place)
            }),
    {
        let mut cursor: usize = cursor;
        let mut inner_cursor: usize = inner_cursor;
        let mut count: usize = count;
        let ghost first = self@;
        let ghost place = Place { list: self@.list, cursor: cursor as int, inner: inner_cursor as int };
        let ghost goal = advanced(place, count as int);
        proof {
            lemma_advanced_placed(place, count as int);
        }
        loop
            invariant
                placed(
                    Place { list: self@.list, cursor: cursor as int, inner: inner_cursor as int },
                ),
                advanced(
                    Place { list: self@.list, cursor: cursor as int, inner: inner_cursor as int },
                    count as int,
                ) == goal,
                self@ == first.moved_to(
                    Place { list: self@.list, cursor: cursor as int, inner: inner_cursor as int },
                ),
                first.moved_to(goal).completed <= u32::MAX,
            ensures
                self@ == first.moved_to(goal),
                cursor == goal.cursor,
                inner_cursor == goal.inner,
            decreases self@.list.len() - cursor, count,
        {
            let len: usize = phys_mem::phys_mems_slice(&self.phys_list).len();
            if count == 0 || cursor >= len {
                break ;
            }
            let mut entry: PagedPhysMem = phys_mem::phys_mems_slice(&self.phys_list)[cursor];
            if entry.is_completed() {
                cursor = cursor + 1;
                inner_cursor = 0;
                continue ;
            }
            let left: usize = entry.nr_pages() - inner_cursor;
            if count >= left {
                proof {
                    entry.lemma_finished();
                    lemma_tally_update(self@.list, cursor as int);
                    lemma_advanced(
                        Place {
                            list: self@.list.update(cursor as int, entry.finished()),
                            cursor: cursor + 1,
                            inner: 0,
                        },
                        count - left,
                    );
                }
                count = count - left;
                let moved: u32 = num::low_u32(entry.nr_pages() as u64);
                entry.set_completed();
                let slice = phys_mem::phys_mems_slice_mut(&mut self.phys_list);
                slice[cursor] = entry;
                self.completed = self.completed + moved;
                cursor = cursor + 1;
                inner_cursor = 0;
            } else {
                inner_cursor = inner_cursor + count;
                count = 0;
            }
        }
        (cursor, inner_cursor)
    }
}

/// How many pages the device is asked for: those of every run.
pub fn requested_pages(disk_pages: &[DevicePage]) -> (nr: usize)
    requires
        device_page::total_device_pages(disk_pages@) <= usize::MAX,
    ensures
        nr == device_page::total_device_pages(disk_pages@),
{
    let mut nr: usize = 0;
    let mut i: usize = 0;
    while i < disk_pages.len()
        invariant
            i <= disk_pages.len(),
            device_page::total_device_pages(disk_pages@) <= usize::MAX,
            nr == device_page::total_device_pages(disk_pages@.take(i as int)),
        decreases disk_pages.len() - i,
    {
        proof {
            assert(disk_pages@.take(i + 1).drop_last() =~= disk_pages@.take(i as int));
            lemma_device_pages_prefix(disk_pages@, i + 1);
        }
        nr = nr + disk_pages[i].nr_pages();
        i = i + 1;
    }
    assert(disk_pages@.take(i as int) =~= disk_pages@);
    nr
}

proof fn lemma_device_pages_prefix(pages: Seq<DevicePage>, n: int)
    requires
        0 <= n <= pages.len(),
    ensures
        device_page::total_device_pages(pages.take(n)) <= device_page::total_device_pages(pages),
    decreases pages.len() - n,
{
    if n < pages.len() {
        assert(pages.take(n + 1).drop_last() =~= pages.take(n));
        lemma_device_pages_prefix(pages, n + 1);
    } else {
        assert(pages.take(n) =~= pages);
    }
}

proof fn lemma_totals(list: Seq<PagedPhysMem>)
    requires
        sound(list),
    ensures
        0 <= done_pages(list) <= total_pages(list),
    decreases list.len(),
{
    if list.len() > 0 {
        lemma_totals(list.drop_last());
    }
}

proof fn lemma_totals_prefix(list: Seq<PagedPhysMem>, n: int)
    requires
        sound(list),
        0 <= n <= list.len(),
    ensures
        0 <= total_pages(list.take(n)) <= total_pages(list),
        0 <= done_pages(list.take(n)) <= total_pages(list.take(n)),
    decreases list.len() - n,
{
    lemma_totals(list.take(n));
    if n < list.len() {
        assert(list.take(n + 1).drop_last() =~= list.take(n));
        lemma_totals_prefix(list, n + 1);
    } else {
        assert(list.take(n) =~= list);
    }
}

/// The pages of a list of memory, and those of its finished entries.
fn page_totals(list: &[PagedPhysMem]) -> (totals: (usize, usize))
    requires
        sound(list@),
        total_pages(list@) <= usize::MAX,
    ensures
        totals.0 == total_pages(list@),
        totals.1 == done_pages(list@),
{
    let mut total: usize = 0;
    let mut done: usize = 0;
    let mut i: usize = 0;
    while i < list.len()
        invariant
            i <= list.len(),
            sound(list@),
            total_pages(list@) <= usize::MAX,
            total == total_pages(list@.take(i as int)),
            done == done_pages(list@.take(i as int)),
        decreases list.len() - i,
    {
        proof {
            assert(list@.take(i + 1).drop_last() =~= list@.take(i as int));
            lemma_totals_prefix(list@, i as int);
            lemma_totals_prefix(list@, i + 1);
        }
        let nr: usize = list[i].nr_pages();
        total = total + nr;
        if list[i].is_completed() {
            done = done + nr;
        }
        i = i + 1;
    }
    assert(list@.take(i as int) =~= list@);
    (total, done)
}

/// The lesser of two numbers.
pub open spec fn least(a: int, b: int) -> int {
    if a <= b {
        a
    } else {
        b
    }
}

impl PageRequest {
    /// Counts the pages of the request anew once memory was found for it: `requested` pages were
    /// asked for, and there may be less memory than that.
    pub fn phys_allocated(&mut self, requested: usize)
        requires
            sound(old(self)@.list),
            total_pages(old(self)@.list) <= usize::MAX,
        ensures
            final(self)@ == (RequestView {
                nr_pages: least(total_pages(old(self)@.list), requested as int) % num::two32(),
                completed: least(done_pages(old(self)@.list), requested as int) % num::two32(),
                ..old(self)@
            }),
    {
        let (total, done) = page_totals(phys_mem::phys_mems_slice(&self.phys_list));
        let nr: usize = if total <= requested {
            total
        } else {
            requested
        };
        let completed: usize = if done <= requested {
            done
        } else {
            requested
        };
        self.nr_pages = num::low_u32(nr as u64);
        self.completed = num::low_u32(completed as u64);
    }

    /// Where moving the pages starts: at the first entry that is not finished. With every entry
    /// finished there is nothing to move, and the answer is `None`.
    pub fn begin(&self) -> (start: Option<Transfer>)
        requires
            sound(self@.list),
        ensures
            start is None <==> forall|i: int|
                0 <= i < self@.list.len() ==> (#[trigger] self@.list[i]).done(),
            start matches Some(t) ==> {
                &&& t.wf(self@)
                &&& t.cursor < self@.list.len()
                &&& !self@.list[t.cursor as int].done()
                &&& forall|i: int| 0 <= i < t.cursor ==> (#[trigger] self@.list[i]).done()
                &&& t.inner_cursor == 0
                &&& t.tfer_count == 0
                &&& t.next == 0
                &&& t.count == 0
            },
    {
        let list = phys_mem::phys_mems_slice(&self.phys_list);
        let mut i: usize = 0;
        while i < list.len()
            invariant
                i <= list.len(),
                list@ == self@.list,
                sound(self@.list),
                forall|j: int| 0 <= j < i ==> (#[trigger] self@.list[j]).done(),
            decreases list.len() - i,
        {
            if !list[i].is_completed() {
                assert(!self@.list[i as int].done());
                return Some(
                    Transfer { cursor: i, inner_cursor: 0, tfer_count: 0, next: 0, count: 0 },
                );
            }
            i = i + 1;
        }
        None
    }

    /// The next step of moving pages to or from the runs `disk_pages`.
    pub fn step(&mut self, t: &mut Transfer, disk_pages: &[DevicePage]) -> (step: Step)
        requires
            old(t).wf(old(self)@),
            steppable(old(self)@, *old(t), disk_pages@),
        ensures
            step == next_step(old(self)@, *old(t), disk_pages@),
            final(self)@ == request_after_step(old(self)@, *old(t), disk_pages@),
            *final(t) == transfer_after_step(old(self)@, *old(t), disk_pages@),
            final(t).wf(final(self)@),
    {
        let len: usize = phys_mem::phys_mems_slice(&self.phys_list).len();
        if t.next >= disk_pages.len() || (t.cursor >= len && t.count == 0) {
            return Step::Done;
        }
        match disk_pages[t.next] {
            DevicePage::Hole(len) => {
                proof {
                    lemma_advanced(t.place(self@), len as int);
                }
                let (cursor, inner_cursor) = self.advance(t.cursor, t.inner_cursor, len as usize);
                t.cursor = cursor;
                t.inner_cursor = inner_cursor;
                t.tfer_count = t.tfer_count + len as usize;
                t.next = t.next + 1;
                t.count = 0;
                Step::Continue
            },
            DevicePage::Run(start, run_len) => {
                if t.count < run_len as usize && t.cursor < len {
                    return Step::Move {
                        start: start + t.count as u64,
                        nr_pages: run_len as usize - t.count,
                    };
                }
                t.tfer_count = t.tfer_count + t.count;
                t.next = t.next + 1;
                t.count = 0;
                Step::Continue
            },
        }
    }

    /// Takes the answer of the device to a [`Step::Move`]: it moved `moved` pages. To move nothing
    /// is an error, not a reason to ask again.
    pub fn record(&mut self, t: &mut Transfer, moved: usize) -> (res: Result<(), ErrorKind>)
        requires
            old(t).wf(old(self)@),
            old(t).count + moved <= usize::MAX,
            old(self)@.moved_to(advanced(old(t).place(old(self)@), moved as int)).completed
                <= u32::MAX,
        ensures
            res == (if moved == 0 {
                Err::<(), ErrorKind>(ErrorKind::UnexpectedEof)
            } else {
                Ok(())
            }),
            final(self)@ == old(self)@.moved_to(
                advanced(old(t).place(old(self)@), moved as int),
            ),
            *final(t) == transfer_after_record(old(self)@, *old(t), moved as int),
            final(t).wf(final(self)@),
    {
        proof {
            lemma_advanced(t.place(self@), moved as int);
        }
        if moved == 0 {
            return Err(ErrorKind::UnexpectedEof);
        }
        let (cursor, inner_cursor) = self.advance(t.cursor, t.inner_cursor, moved);
        t.cursor = cursor;
        t.inner_cursor = inner_cursor;
        t.count = t.count + moved;
        Ok(())
    }

    /// Ends moving pages in: where the memory is more than what was moved, the memory from the
    /// place that was reached on is given back, and the request counts only what it keeps.
    /// Memory that no page landed in is not kept as an entry of no pages.
    ///
    /// Returns the ranges to free.
    pub fn finish_page_in(&mut self, t: &Transfer) -> (freed: Vec<PhysRange>)
        requires
            t.wf(old(self)@),
            total_pages(old(self)@.list) <= usize::MAX,
        ensures
            t.tfer_count >= total_pages(old(self)@.list) ==> freed@.len() == 0 && final(self)@
                == old(self)@,
            t.tfer_count < total_pages(old(self)@.list) ==> {
                &&& freed@ == freed_ranges(t.place(old(self)@))
                &&& final(self)@ == (RequestView {
                    start_page: old(self)@.start_page,
                    nr_pages: total_pages(kept(t.place(old(self)@))) % num::two32(),
                    completed: done_pages(kept(t.place(old(self)@))) % num::two32(),
                    list: kept(t.place(old(self)@)),
                })
            },
    {
        let mut freed: Vec<PhysRange> = Vec::new();
        let (total, _) = page_totals(phys_mem::phys_mems_slice(&self.phys_list));
        if t.tfer_count < total {
            let ghost before = self@;
            let ghost place = t.place(self@);
            let len: usize = phys_mem::phys_mems_slice(&self.phys_list).len();
            let truncate: usize = if t.inner_cursor == 0 {
                t.cursor
            } else {
                t.cursor + 1
            };
            let mut cursor: usize = t.cursor;
            let mut inner_cursor: usize = t.inner_cursor;
            while cursor < len
                invariant
                    t.cursor <= cursor <= len,
                    place == t.place(before),
                    place.wf(),
                    len == before.list.len(),
                    self@.list.len() == len,
                    self.start_page == before.start_page,
                    inner_cursor == (if cursor == t.cursor {
                        t.inner_cursor
                    } else {
                        0
                    }),
                    forall|i: int|
                        0 <= i < len && (i < t.cursor || cursor <= i) ==> (
                        #[trigger] self@.list[i]) == before.list[i],
                    t.cursor < cursor ==> self@.list[t.cursor as int]
                        == before.list[t.cursor as int].cut(
                        (before.list[t.cursor as int].mem().start + t.inner_cursor
                            * PAGE_SIZE) as u64,
                    ),
                    freed@ == freed_ranges(place).take(cursor - t.cursor),
                decreases len - cursor,
            {
                let mut entry: PagedPhysMem = phys_mem::phys_mems_slice(&self.phys_list)[cursor];
                proof {
                    assert(before.list[cursor as int].mem().ordered());
                    lemma_split_fits(entry.mem(), inner_cursor as int);
                }
                let rest = entry.split_off(inner_cursor);
                let slice = phys_mem::phys_mems_slice_mut(&mut self.phys_list);
                slice[cursor] = entry;
                freed.push(rest);
                cursor = cursor + 1;
                inner_cursor = 0;
                assert(freed@ =~= freed_ranges(place).take(cursor - t.cursor));
            }
            phys_mem::truncate_phys_mems(&mut self.phys_list, truncate);
            proof {
                assert(self@.list =~= kept(place));
                lemma_kept(place);
            }
            let (total, done) = page_totals(phys_mem::phys_mems_slice(&self.phys_list));
            self.nr_pages = num::low_u32(total as u64);
            self.completed = num::low_u32(done as u64);
            assert(freed@ =~= freed_ranges(place));
        }
        freed
    }
}

proof fn lemma_split_fits(range: PhysRange, pages: int)
    requires
        range.ordered(),
        0 <= pages <= range.pages(),
    ensures
        range.start + pages * PAGE_SIZE <= range.end,
{
    assert(pages * PAGE_SIZE <= range.pages() * PAGE_SIZE) by (nonlinear_arith)
        requires
            pages <= range.pages(),
    ;
}

/// The memory that is kept when moving pages in ends at `place`: every entry before it, and the
/// filled part of the one that it lies in.
pub open spec fn kept(place: Place) -> Seq<PagedPhysMem> {
    if place.inner == 0 {
        place.list.take(place.cursor)
    } else {
        place.list.take(place.cursor).push(
            place.list[place.cursor].cut(
                (place.list[place.cursor].mem().start + place.inner * PAGE_SIZE) as u64,
            ),
        )
    }
}

/// The ranges that are freed when moving pages in ends at `place`: the unfilled part of the entry
/// that it lies in, and every entry behind that.
pub open spec fn freed_ranges(place: Place) -> Seq<PhysRange> {
    Seq::new(
        (place.list.len() - place.cursor) as nat,
        |i: int|
            PhysRange {
                start: if i == 0 {
                    (place.list[place.cursor].mem().start + place.inner * PAGE_SIZE) as u64
                } else {
                    place.list[place.cursor + i].mem().start
                },
                end: place.list[place.cursor + i].mem().end,
            },
    )
}

proof fn lemma_kept(place: Place)
    requires
        place.wf(),
    ensures
        sound(kept(place)),
        total_pages(kept(place)) <= total_pages(place.list),
{
    lemma_totals_prefix(place.list, place.cursor);
    if place.inner != 0 {
        let entry = place.list[place.cursor];
        let end = (entry.mem().start + place.inner * PAGE_SIZE) as u64;
        lemma_split_fits(entry.mem(), place.inner);
        entry.lemma_cut(end);
        lemma_totals_prefix(place.list, place.cursor + 1);
        assert(place.list.take(place.cursor + 1).drop_last() =~= place.list.take(place.cursor));
        assert(kept(place).drop_last() =~= place.list.take(place.cursor));
        assert(entry.cut(end).pages() == place.inner);
    }
}

/// Whether the next step stays within the integers that count pages and blocks.
pub open spec fn steppable(request: RequestView, t: Transfer, disk: Seq<DevicePage>) -> bool {
    if t.next >= disk.len() || (t.cursor >= request.list.len() && t.count == 0) {
        true
    } else {
        match disk[t.next as int] {
            DevicePage::Hole(len) => {
                &&& t.tfer_count + len <= usize::MAX
                &&& request.moved_to(advanced(t.place(request), len as int)).completed <= u32::MAX
            },
            DevicePage::Run(start, len) => {
                if t.count < len && t.cursor < request.list.len() {
                    start + t.count <= u64::MAX
                } else {
                    t.tfer_count + t.count <= usize::MAX
                }
            },
        }
    }
}

/// What is to be done next. A run is moved until all of it has been moved or the memory has run
/// out, and nothing goes on once the memory has run out.
pub open spec fn next_step(request: RequestView, t: Transfer, disk: Seq<DevicePage>) -> Step {
    if t.next >= disk.len() || (t.cursor >= request.list.len() && t.count == 0) {
        Step::Done
    } else {
        match disk[t.next as int] {
            DevicePage::Hole(_) => Step::Continue,
            DevicePage::Run(start, len) => if t.count < len && t.cursor < request.list.len() {
                Step::Move { start: (start + t.count) as u64, nr_pages: (len - t.count) as usize }
            } else {
                Step::Continue
            },
        }
    }
}

/// The request after the next step: a hole fills memory without moving anything.
pub open spec fn request_after_step(
    request: RequestView,
    t: Transfer,
    disk: Seq<DevicePage>,
) -> RequestView {
    if next_step(request, t, disk) is Continue && disk[t.next as int] is Hole {
        request.moved_to(advanced(t.place(request), disk[t.next as int].pages() as int))
    } else {
        request
    }
}

/// The transfer after the next step.
pub open spec fn transfer_after_step(
    request: RequestView,
    t: Transfer,
    disk: Seq<DevicePage>,
) -> Transfer {
    if next_step(request, t, disk) is Continue {
        match disk[t.next as int] {
            DevicePage::Hole(len) => {
                let place = advanced(t.place(request), len as int);
                Transfer {
                    cursor: place.cursor as usize,
                    inner_cursor: place.inner as usize,
                    tfer_count: (t.tfer_count + len) as usize,
                    next: (t.next + 1) as usize,
                    count: 0,
                }
            },
            DevicePage::Run(..) => Transfer {
                tfer_count: (t.tfer_count + t.count) as usize,
                next: (t.next + 1) as usize,
                count: 0,
                ..t
            },
        }
    } else {
        t
    }
}

/// The transfer once the device has moved `moved` pages.
pub open spec fn transfer_after_record(request: RequestView, t: Transfer, moved: int) -> Transfer {
    let place = advanced(t.place(request), moved);
    Transfer {
        cursor: place.cursor as usize,
        inner_cursor: place.inner as usize,
        count: (t.count + moved) as usize,
        ..t
    }
}

/// An upper bound on the steps that are left: one for each run from `next` on, and one for each
/// page of them that is not moved yet.
pub open spec fn work_left(disk: Seq<DevicePage>, next: int, count: int) -> int
    decreases disk.len() - next,
{
    if next < 0 || next >= disk.len() {
        0
    } else {
        work_left(disk, next + 1, 0) + 1 + if count < disk[next].pages() {
            disk[next].pages() - count
        } else {
            0
        }
    }
}

proof fn lemma_work_left_bounds(disk: Seq<DevicePage>, next: int, count: int)
    requires
        0 <= next,
        0 <= count,
    ensures
        work_left(disk, next, count) >= 0,
    decreases disk.len() - next,
{
    if next < disk.len() {
        lemma_work_left_bounds(disk, next + 1, 0);
    }
}

/// Moving pages comes to an end: every step but the last, and every answer of the device that is
/// not an error, leaves less to do.
pub proof fn lemma_transfer_progress(
    request: RequestView,
    t: Transfer,
    disk: Seq<DevicePage>,
    moved: int,
)
    requires
        t.wf(request),
        steppable(request, t, disk),
        disk.len() <= usize::MAX,
        0 < moved,
        t.count + moved <= usize::MAX,
    ensures
        work_left(disk, t.next as int, t.count as int) >= 0,
        next_step(request, t, disk) is Continue ==> {
            let after = transfer_after_step(request, t, disk);
            work_left(disk, after.next as int, after.count as int) < work_left(
                disk,
                t.next as int,
                t.count as int,
            )
        },
        next_step(request, t, disk) is Move ==> {
            let after = transfer_after_record(request, t, moved);
            work_left(disk, after.next as int, after.count as int) < work_left(
                disk,
                t.next as int,
                t.count as int,
            )
        },
{
    lemma_work_left_bounds(disk, t.next as int, t.count as int);
    if t.next < disk.len() {
        lemma_work_left_bounds(disk, t.next + 1, 0);
    }
}

/// Whether a transfer that started with `start` pages of room counts the pages that it filled, and
/// has gone through the runs before `next`, all of them as long as there was memory.
pub open spec fn on_track(start: int, request: RequestView, t: Transfer, disk: Seq<DevicePage>) -> bool {
    &&& t.tfer_count + t.count == start - room(t.place(request))
    &&& t.next <= disk.len()
    &&& t.next == disk.len() ==> t.count == 0
    &&& t.next < disk.len() ==> t.count <= disk[t.next as int].pages()
    &&& t.next < disk.len() ==> disk[t.next as int] is Hole ==> t.count == 0
    &&& t.tfer_count <= device_page::total_device_pages(disk.take(t.next as int))
    &&& t.cursor < request.list.len() ==> t.tfer_count == device_page::total_device_pages(
        disk.take(t.next as int),
    )
}

/// A transfer starts on track.
pub proof fn lemma_begin_on_track(request: RequestView, t: Transfer, disk: Seq<DevicePage>)
    requires
        t.wf(request),
        t.tfer_count == 0,
        t.next == 0,
        t.count == 0,
    ensures
        on_track(room(t.place(request)), request, t, disk),
{
    assert(disk.take(0).len() == 0);
}

/// A step keeps a transfer on track, as long as a hole is not larger than the memory that is left
/// for it.
pub proof fn lemma_step_on_track(start: int, request: RequestView, t: Transfer, disk: Seq<DevicePage>)
    requires
        t.wf(request),
        steppable(request, t, disk),
        disk.len() <= usize::MAX,
        on_track(start, request, t, disk),
        t.next < disk.len() ==> disk[t.next as int] is Hole ==> disk[t.next as int].pages() <= room(
            t.place(request),
        ),
    ensures
        on_track(
            start,
            request_after_step(request, t, disk),
            transfer_after_step(request, t, disk),
            disk,
        ),
{
    if next_step(request, t, disk) is Continue {
        let after = transfer_after_step(request, t, disk);
        assert(disk.take(t.next + 1).drop_last() =~= disk.take(t.next as int));
        if disk[t.next as int] is Hole {
            let len = disk[t.next as int].pages() as int;
            lemma_advanced(t.place(request), len);
            lemma_advanced_room(t.place(request), len);
            assert(after.place(request_after_step(request, t, disk)) =~= advanced(
                t.place(request),
                len,
            ));
        } else {
            assert(after.place(request) == t.place(request));
        }
    }
}

/// An answer keeps a transfer on track, as long as the device does not claim to have moved more
/// than it was asked for or than there is memory for.
pub proof fn lemma_record_on_track(
    start: int,
    request: RequestView,
    t: Transfer,
    disk: Seq<DevicePage>,
    moved: int,
)
    requires
        t.wf(request),
        on_track(start, request, t, disk),
        next_step(request, t, disk) matches Step::Move { start: _, nr_pages } && 0 <= moved
            <= nr_pages,
        moved <= room(t.place(request)),
        t.count + moved <= usize::MAX,
    ensures
        on_track(
            start,
            request.moved_to(advanced(t.place(request), moved)),
            transfer_after_record(request, t, moved),
            disk,
        ),
{
    lemma_advanced(t.place(request), moved);
    lemma_advanced_room(t.place(request), moved);
    let after = transfer_after_record(request, t, moved);
    assert(after.place(request.moved_to(advanced(t.place(request), moved))) =~= advanced(
        t.place(request),
        moved,
    ));
}

/// A transfer on track reports what it moved: all pages of the runs where they fit in the memory,
/// and as many as fit where they do not.
pub proof fn lemma_transfer_total(start: int, request: RequestView, t: Transfer, disk: Seq<DevicePage>)
    requires
        t.wf(request),
        on_track(start, request, t, disk),
        next_step(request, t, disk) is Done,
    ensures
        t.tfer_count == least(device_page::total_device_pages(disk) as int, start),
{
    lemma_room_bounds(t.place(request));
    lemma_device_pages_prefix(disk, t.next as int);
    if t.next >= disk.len() {
        assert(disk.take(t.next as int) =~= disk);
        if t.cursor >= request.list.len() {
            assert(room(t.place(request)) == 0);
        }
    }
}

/// A run longer than the memory stops at the end of the memory: no transfer is asked for once no
/// entry is left.
pub proof fn lemma_no_move_without_memory(request: RequestView, t: Transfer, disk: Seq<DevicePage>)
    requires
        t.cursor >= request.list.len(),
    ensures
        !(next_step(request, t, disk) is Move),
        t.count == 0 ==> next_step(request, t, disk) is Done,
{
}

/// Whether no entry from a place on is finished.
pub open spec fn fresh_from(place: Place) -> bool {
    forall|i: int| place.cursor <= i < place.list.len() ==> !(#[trigger] place.list[i]).done()
}

/// Advancing finishes no entry from the place that it reaches on.
pub proof fn lemma_stays_fresh(place: Place, count: int)
    requires
        place.wf(),
        fresh_from(place),
    ensures
        fresh_from(advanced(place, count)),
{
    lemma_advanced(place, count);
    let after = advanced(place, count);
    assert forall|i: int| after.cursor <= i < after.list.len() implies !(
    #[trigger] after.list[i]).done() by {
        assert(!place.list[i].done());
    }
}

proof fn lemma_room_behind(place: Place)
    requires
        place.wf(),
        fresh_from(place),
    ensures
        total_pages(place.list) == total_pages(place.list.take(place.cursor)) + place.inner + room(
            place,
        ),
    decreases place.list.len() - place.cursor,
{
    if place.cursor < place.list.len() {
        assert(!place.list[place.cursor].done());
        lemma_room_behind(Place { cursor: place.cursor + 1, inner: 0, ..place });
        assert(place.list.take(place.cursor + 1).drop_last() =~= place.list.take(place.cursor));
    } else {
        assert(place.list.take(place.cursor) =~= place.list);
    }
}

/// A request that was given fresh memory keeps exactly what was moved: the memory that ending the
/// page-in leaves it holds as many pages as the page-in reports.
pub proof fn lemma_kept_is_moved(request: RequestView, t: Transfer, disk: Seq<DevicePage>)
    requires
        t.wf(request),
        fresh_from(t.place(request)),
        on_track(total_pages(request.list), request, t, disk),
        next_step(request, t, disk) is Done,
    ensures
        total_pages(kept(t.place(request))) == t.tfer_count,
{
    lemma_room_behind(t.place(request));
    lemma_kept_entries(t.place(request));
    if t.next >= disk.len() {
        assert(t.count == 0);
    }
}

/// Where nothing has been moved yet, all of the memory is room.
pub proof fn lemma_fresh_room(request: RequestView, t: Transfer)
    requires
        t.wf(request),
        t.cursor == 0,
        t.inner_cursor == 0,
        fresh_from(t.place(request)),
    ensures
        room(t.place(request)) == total_pages(request.list),
{
    lemma_room_behind(t.place(request));
    assert(request.list.take(0).len() == 0);
}

impl PhysRange {
    /// Whether the range holds an address.
    pub open spec fn holds(self, address: int) -> bool {
        self.start <= address < self.end
    }
}

/// Ending a page-in loses no memory and frees none that is kept: every address of every entry is
/// either kept in that entry or freed.
pub proof fn lemma_kept_or_freed(place: Place, i: int, address: int)
    requires
        place.wf(),
        0 <= i < place.list.len(),
    ensures
        place.list[i].mem().holds(address) <==> {
            ||| i < kept(place).len() && kept(place)[i].mem().holds(address)
            ||| i >= place.cursor && freed_ranges(place)[i - place.cursor].holds(address)
        },
        !(i < kept(place).len() && kept(place)[i].mem().holds(address) && i >= place.cursor
            && freed_ranges(place)[i - place.cursor].holds(address)),
{
    if i == place.cursor {
        lemma_split_fits(place.list[i].mem(), place.inner);
        place.list[i].lemma_cut(
            (place.list[i].mem().start + place.inner * PAGE_SIZE) as u64,
        );
    }
}

/// Ending a page-in keeps no entry that no page landed in: behind the entries before the place
/// there is at most one more, and that one holds the pages that were filled in it.
pub proof fn lemma_kept_entries(place: Place)
    requires
        place.wf(),
    ensures
        sound(kept(place)),
        place.inner == 0 ==> kept(place) == place.list.take(place.cursor),
        place.inner > 0 ==> kept(place).len() == place.cursor + 1 && kept(place).last().pages()
            == place.inner,
        total_pages(kept(place)) == total_pages(place.list.take(place.cursor)) + place.inner,
        0 <= done_pages(kept(place)) <= total_pages(kept(place)) <= total_pages(place.list),
{
    lemma_kept(place);
    lemma_totals(kept(place));
    if place.inner > 0 {
        let entry = place.list[place.cursor];
        let end = (entry.mem().start + place.inner * PAGE_SIZE) as u64;
        lemma_split_fits(entry.mem(), place.inner);
        entry.lemma_cut(end);
        assert(kept(place).drop_last() =~= place.list.take(place.cursor));
        assert(entry.cut(end).pages() == place.inner);
    }
}

/// A move that a transfer on track asks for is of the very next pages: with `p` pages gone through,
/// the first block is the one behind page `p` of the runs, and the blocks from there on are those
/// behind the pages from `p` on, up to the end of the run. None of those pages is a hole.
pub proof fn lemma_move_is_of_the_next_pages(
    start: int,
    request: RequestView,
    t: Transfer,
    disk: Seq<DevicePage>,
)
    requires
        steppable(request, t, disk),
        on_track(start, request, t, disk),
        next_step(request, t, disk) is Move,
    ensures
        ({
            let p = t.tfer_count + t.count;
            let first = next_step(request, t, disk)->start;
            let nr_pages = next_step(request, t, disk)->nr_pages;
            &&& nr_pages > 0
            &&& p + nr_pages <= device_page::backing(disk).len()
            &&& device_page::backing(disk)[p] == Some(first as int)
            &&& forall|i: int|
                0 <= i < nr_pages ==> #[trigger] device_page::backing(disk)[p + i] == Some(
                    first + i,
                )
            &&& p + nr_pages == device_page::total_device_pages(disk.take(t.next + 1))
        }),
{
    let p = t.tfer_count + t.count;
    let first = next_step(request, t, disk)->start;
    let nr_pages = next_step(request, t, disk)->nr_pages;
    let run = disk[t.next as int];
    device_page::lemma_backing_at(disk, t.next as int);
    assert forall|i: int| 0 <= i < nr_pages implies #[trigger] device_page::backing(disk)[p + i]
        == Some(first + i) by {
        assert(run.blocks()[t.count + i] == Some(first + i));
    }
    assert(device_page::backing(disk)[p + 0] == Some(first + 0));
    assert(disk.take(t.next + 1).drop_last() =~= disk.take(t.next as int));
}

/// A move never leaves the run in progress: it asks for the blocks of the run that have not been
/// moved, all of them, whether or not the device kept to what it was asked for before.
pub proof fn lemma_move_is_the_rest_of_the_run(
    request: RequestView,
    t: Transfer,
    disk: Seq<DevicePage>,
)
    requires
        steppable(request, t, disk),
        next_step(request, t, disk) is Move,
    ensures
        t.next < disk.len(),
        t.cursor < request.list.len(),
        disk[t.next as int] matches DevicePage::Run(first, len) && {
            &&& t.count < len
            &&& next_step(request, t, disk)->start == first + t.count
            &&& next_step(request, t, disk)->start + next_step(request, t, disk)->nr_pages == first
                + len
        },
{
}

/// Nothing is moved, filled or skipped by a step that is a move or that ends the transfer, and
/// every other step goes on to the next run. A transfer is over exactly where no run is left, or
/// where the memory ran out and no part of a run is in progress.
pub proof fn lemma_step_goes_on(request: RequestView, t: Transfer, disk: Seq<DevicePage>)
    requires
        t.wf(request),
        steppable(request, t, disk),
        disk.len() <= usize::MAX,
    ensures
        !(next_step(request, t, disk) is Continue) ==> transfer_after_step(request, t, disk) == t
            && request_after_step(request, t, disk) == request,
        next_step(request, t, disk) is Continue ==> {
            let after = transfer_after_step(request, t, disk);
            &&& after.next == t.next + 1
            &&& after.count == 0
            &&& disk[t.next as int] is Run ==> after.tfer_count == t.tfer_count + t.count
                && request_after_step(request, t, disk) == request
            &&& disk[t.next as int] matches DevicePage::Hole(len) ==> after.tfer_count
                == t.tfer_count + len
        },
        next_step(request, t, disk) is Move <==> t.next < disk.len() && t.cursor
            < request.list.len() && (disk[t.next as int] matches DevicePage::Run(_, len) && t.count
            < len),
        request_after_step(request, t, disk).completed == request.completed + tally(
            request_after_step(request, t, disk).list,
        ) - tally(request.list),
        next_step(request, t, disk) is Done <==> t.next >= disk.len() || t.cursor
            >= request.list.len() && t.count == 0,
        t.next < disk.len() && disk[t.next as int] is Hole ==> !(next_step(request, t, disk) is Move),
        request_after_step(request, t, disk).start_page == request.start_page,
        request_after_step(request, t, disk).nr_pages == request.nr_pages,
{
}

/// What the device moved counts towards the run in progress, and towards nothing else yet.
pub proof fn lemma_record_counts(request: RequestView, t: Transfer, moved: int)
    requires
        t.wf(request),
        0 <= moved,
        t.count + moved <= usize::MAX,
    ensures
        transfer_after_record(request, t, moved).count == t.count + moved,
        transfer_after_record(request, t, moved).tfer_count == t.tfer_count,
        transfer_after_record(request, t, moved).next == t.next,
{
}

/// Whether a transfer that began at `begin` stands as many pages on from there as it has gone
/// through.
pub open spec fn aligned(begin: Place, request: RequestView, t: Transfer) -> bool {
    t.place(request) == advanced(begin, t.tfer_count + t.count)
}

/// A transfer that has moved nothing stands where it began.
pub proof fn lemma_begin_aligned(request: RequestView, t: Transfer)
    requires
        t.tfer_count == 0,
        t.count == 0,
    ensures
        aligned(t.place(request), request, t),
{
}

/// A step keeps the memory and the runs side by side: the page of memory that comes next is the one
/// for the page of the runs that comes next.
pub proof fn lemma_step_stays_aligned(
    begin: Place,
    request: RequestView,
    t: Transfer,
    disk: Seq<DevicePage>,
)
    requires
        begin.wf(),
        t.wf(request),
        steppable(request, t, disk),
        disk.len() <= usize::MAX,
        aligned(begin, request, t),
        t.next < disk.len() ==> disk[t.next as int] is Hole ==> t.count == 0,
    ensures
        aligned(
            begin,
            request_after_step(request, t, disk),
            transfer_after_step(request, t, disk),
        ),
{
    if next_step(request, t, disk) is Continue {
        let after = transfer_after_step(request, t, disk);
        if let DevicePage::Hole(len) = disk[t.next as int] {
            lemma_advanced_adds(begin, t.tfer_count + t.count, len as int);
            lemma_advanced(t.place(request), len as int);
            lemma_place_fits(advanced(t.place(request), len as int));
            assert(after.place(request_after_step(request, t, disk)) =~= advanced(
                t.place(request),
                len as int,
            ));
        } else {
            assert(after.place(request) =~= t.place(request));
        }
    }
}

/// An answer of the device keeps the memory and the runs side by side.
pub proof fn lemma_record_stays_aligned(
    begin: Place,
    request: RequestView,
    t: Transfer,
    moved: int,
)
    requires
        begin.wf(),
        t.wf(request),
        aligned(begin, request, t),
        0 <= moved,
        t.count + moved <= usize::MAX,
    ensures
        aligned(
            begin,
            request.moved_to(advanced(t.place(request), moved)),
            transfer_after_record(request, t, moved),
        ),
{
    let after = transfer_after_record(request, t, moved);
    lemma_advanced_adds(begin, t.tfer_count + t.count, moved);
    lemma_advanced(t.place(request), moved);
    lemma_place_fits(advanced(t.place(request), moved));
    assert(after.place(request.moved_to(advanced(t.place(request), moved))) =~= advanced(
        t.place(request),
        moved,
    ));
}

proof fn lemma_place_fits(place: Place)
    requires
        place.wf(),
        place.list.len() <= usize::MAX,
    ensures
        0 <= place.cursor <= usize::MAX,
        0 <= place.inner <= usize::MAX,
{
    if place.cursor < place.list.len() {
        assert(place.list[place.cursor].mem().ordered());
        phys_mem::lemma_pages_are_whole(place.list[place.cursor].mem());
    }
}

/// To advance by one page is to fill one page of the entry at hand, and to finish the entry and go
/// on to the next one where that was its last. An entry that was finished before is passed, and so
/// is one with no page left, which counts as finished from then on. To advance by no page, or from
/// behind the memory, is to stay.
pub proof fn lemma_advanced_by_one(place: Place)
    requires
        placed(place),
    ensures
        forall|count: int| count <= 0 ==> #[trigger] advanced(place, count) == place,
        place.cursor >= place.list.len() ==> forall|count: int| #[trigger]
            advanced(place, count) == place,
        place.cursor < place.list.len() ==> {
            let entry = place.list[place.cursor];
            let next = Place { cursor: place.cursor + 1, inner: 0, ..place };
            let marked = Place { list: place.list.update(place.cursor, entry.finished()), ..next };
            &&& entry.done() ==> advanced(place, 1) == advanced(next, 1)
            &&& !entry.done() && place.inner == entry.pages() ==> advanced(place, 1) == advanced(
                marked,
                1,
            )
            &&& !entry.done() && place.inner + 1 == entry.pages() ==> advanced(place, 1) == marked
            &&& !entry.done() && place.inner + 1 < entry.pages() ==> advanced(place, 1) == (Place {
                inner: place.inner + 1,
                ..place
            })
        },
{
    if place.cursor < place.list.len() {
        let entry = place.list[place.cursor];
        let next = Place { cursor: place.cursor + 1, inner: 0, ..place };
        let marked = Place { list: place.list.update(place.cursor, entry.finished()), ..next };
        reveal_with_fuel(advanced, 2);
        assert(advanced(marked, 0) == marked);
    }
}

/// Pages of memory are counted entry by entry: each entry adds its pages to the total, and to what
/// is finished where it is finished, in the one count in full and in the other in 32 bits.
pub proof fn lemma_entries_are_counted(list: Seq<PagedPhysMem>, entry: PagedPhysMem)
    ensures
        total_pages(Seq::empty()) == 0,
        done_pages(Seq::empty()) == 0,
        tally(Seq::empty()) == 0,
        total_pages(list.push(entry)) == total_pages(list) + entry.pages(),
        entry.done() ==> done_pages(list.push(entry)) == done_pages(list) + entry.pages(),
        !entry.done() ==> done_pages(list.push(entry)) == done_pages(list),
        entry.done() ==> tally(list.push(entry)) == tally(list) + entry.pages() % 0x1_0000_0000,
        !entry.done() ==> tally(list.push(entry)) == tally(list),
{
    assert(list.push(entry).drop_last() =~= list);
    assert(total_pages(Seq::empty()) == 0);
    assert(done_pages(Seq::empty()) == 0);
    assert(tally(Seq::empty()) == 0);
}

/// A request whose memory gains a finished entry counts the pages of that entry as moved, and keeps
/// what it is for.
pub proof fn lemma_finishing_counts(request: RequestView, i: int, cursor: int, inner: int)
    requires
        0 <= i < request.list.len(),
        !request.list[i].done(),
    ensures
        ({
            let list = request.list.update(i, request.list[i].finished());
            let after = request.moved_to(Place { list, cursor, inner });
            &&& after.completed == request.completed + request.list[i].pages() % 0x1_0000_0000
            &&& after.start_page == request.start_page
            &&& after.nr_pages == request.nr_pages
            &&& after.list == list
            &&& request.moved_to(Place { list: request.list, cursor, inner }) == request
        }),
        forall|place: Place|
            (#[trigger] request.moved_to(place)).completed + tally(request.list)
                == request.completed + tally(place.list) && request.moved_to(place).list
                == place.list,
{
    lemma_tally_update(request.list, i);
}

proof fn lemma_totals_concat(a: Seq<PagedPhysMem>, b: Seq<PagedPhysMem>)
    ensures
        total_pages(a + b) == total_pages(a) + total_pages(b),
        done_pages(a + b) == done_pages(a) + done_pages(b),
    decreases b.len(),
{
    if b.len() == 0 {
        assert(a + b =~= a);
    } else {
        assert((a + b).drop_last() =~= a + b.drop_last());
        lemma_totals_concat(a, b.drop_last());
    }
}

/// The room behind a place is the pages of the entries from there on that are not finished, without
/// those that are filled.
pub proof fn lemma_room_is_what_is_unfilled(place: Place)
    requires
        0 <= place.cursor <= place.list.len(),
    ensures
        room(place) == total_pages(place.list.skip(place.cursor)) - done_pages(
            place.list.skip(place.cursor),
        ) - if place.cursor < place.list.len() && !place.list[place.cursor].done() {
            place.inner
        } else {
            0
        },
    decreases place.list.len() - place.cursor,
{
    if place.cursor < place.list.len() {
        let next = Place { cursor: place.cursor + 1, inner: 0, ..place };
        let entry = place.list[place.cursor];
        lemma_room_is_what_is_unfilled(next);
        assert(place.list.skip(place.cursor) =~= seq![entry] + place.list.skip(place.cursor + 1));
        lemma_totals_concat(seq![entry], place.list.skip(place.cursor + 1));
        lemma_entries_are_counted(Seq::empty(), entry);
        assert(seq![entry] =~= Seq::empty().push(entry));
    }
}

/// The lesser of two numbers is one of them, and no greater than either.
pub proof fn lemma_least(a: int, b: int)
    ensures
        least(a, b) <= a,
        least(a, b) <= b,
        least(a, b) == a || least(a, b) == b,
{
}

/// What ending a page-in keeps of an entry starts where the entry starts and carries its flags, and
/// what it frees ends where the entry ends.
pub proof fn lemma_kept_keeps_flags(place: Place, i: int)
    requires
        place.wf(),
        0 <= i < place.list.len(),
    ensures
        i < place.cursor ==> i < kept(place).len() && kept(place)[i] == place.list[i],
        i < kept(place).len() ==> kept(place)[i].mem().start == place.list[i].mem().start
            && kept(place)[i].flag_bits() == place.list[i].flag_bits(),
        freed_ranges(place).len() == place.list.len() - place.cursor,
        i >= place.cursor ==> freed_ranges(place)[i - place.cursor].end == place.list[i].mem().end,
        i == place.cursor ==> freed_ranges(place)[0].start == place.list[i].mem().start
            + place.inner * 4096,
        i > place.cursor ==> freed_ranges(place)[i - place.cursor] == place.list[i].mem(),
{
    if i == place.cursor {
        lemma_split_fits(place.list[i].mem(), place.inner);
        place.list[i].lemma_cut((place.list[i].mem().start + place.inner * PAGE_SIZE) as u64);
    }
}

} // verus!
