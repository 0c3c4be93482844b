//! Runs of object pages as they lie on the device.

use vstd::prelude::*;

use crate::num;
use crate::paged_object_store::MAYHEAP_LEN;

verus! {

/// `mayheap::Vec`, a growable list that may keep its first `N` items inline.
#[verifier::external_type_specification]
#[verifier::external_body]
#[verifier::reject_recursive_types(T)]
pub struct ExMayheapVec<T, const N: usize>(mayheap::Vec<T, N>);

/// A run of consecutive object pages, as they lie on the device.
#[derive(Clone, Copy, Debug, PartialEq, Eq, Structural)]
pub enum DevicePage {
    /// Pages backed by consecutive blocks: the first block, and how many.
    Run(u64, u32),
    /// So many pages with no block behind them.
    Hole(u32),
}

impl DevicePage {
    /// How many pages the run holds.
    pub open spec fn pages(self) -> nat {
        match self {
            DevicePage::Run(_, len) => len as nat,
            DevicePage::Hole(len) => len as nat,
        }
    }

    /// The block behind each page of the run, `None` for a page that has none.
    pub open spec fn blocks(self) -> Seq<Option<int>> {
        match self {
            DevicePage::Run(start, len) => Seq::new(len as nat, |i: int| Some(start + i)),
            DevicePage::Hole(len) => Seq::new(len as nat, |i: int| None),
        }
    }

    /// Whether `next` goes on where `self` ends, so that the two are one run.
    pub open spec fn joins(self, next: DevicePage) -> bool {
        match (self, next) {
            (DevicePage::Hole(_), DevicePage::Hole(_)) => true,
            (DevicePage::Run(start, len), DevicePage::Run(next_start, _)) => start + len
                == next_start,
            _ => false,
        }
    }

    /// The run made of `self` and a `next` that joins it.
    pub open spec fn joined(self, next: DevicePage) -> DevicePage {
        match self {
            DevicePage::Run(start, _) => DevicePage::Run(
                start,
                (self.pages() + next.pages()) as u32,
            ),
            DevicePage::Hole(_) => DevicePage::Hole((self.pages() + next.pages()) as u32),
        }
    }

    /// Whether joining `next` to `self` stays within the integers that hold a run.
    pub open spec fn extendable(self, next: DevicePage) -> bool {
        &&& self matches DevicePage::Run(start, len) ==> (next is Run ==> start + len <= u64::MAX)
        &&& self.joins(next) ==> self.pages() + next.pages() <= u32::MAX
    }

    /// The run without its first `taken` pages.
    pub open spec fn skipped(self, taken: nat) -> DevicePage {
        match self {
            DevicePage::Run(start, len) => DevicePage::Run(
                (start + taken) as u64,
                (len - taken) as u32,
            ),
            DevicePage::Hole(len) => DevicePage::Hole((len - taken) as u32),
        }
    }

    /// The one page that block number `block` stands for, zero standing for no block.
    pub open spec fn single(block: u64) -> DevicePage {
        if block == 0 {
            DevicePage::Hole(1)
        } else {
            DevicePage::Run(block, 1)
        }
    }
}

/// The block behind each page of a list of runs.
pub open spec fn backing(pages: Seq<DevicePage>) -> Seq<Option<int>>
    decreases pages.len(),
{
    if pages.len() == 0 {
        Seq::empty()
    } else {
        backing(pages.drop_last()) + pages.last().blocks()
    }
}

/// How many pages a list of runs holds.
pub open spec fn total_device_pages(pages: Seq<DevicePage>) -> nat
    decreases pages.len(),
{
    if pages.len() == 0 {
        0
    } else {
        total_device_pages(pages.drop_last()) + pages.last().pages()
    }
}

/// `pages` with `item` behind it, merged into the last run where the two join.
pub open spec fn pushed(pages: Seq<DevicePage>, item: DevicePage) -> Seq<DevicePage> {
    if pages.len() > 0 && pages.last().joins(item) {
        pages.drop_last().push(pages.last().joined(item))
    } else {
        pages.push(item)
    }
}

/// Whether `item` can be pushed behind `pages` within the integers that hold a run.
pub open spec fn pushable(pages: Seq<DevicePage>, item: DevicePage) -> bool {
    pages.len() > 0 ==> pages.last().extendable(item)
}

/// Whether no run of the list goes on where the one before it ends.
pub open spec fn coalesced(pages: Seq<DevicePage>) -> bool {
    forall|i: int| 0 < i < pages.len() ==> !(#[trigger] pages[i - 1]).joins(pages[i])
}

/// The runs of the first `n` block numbers of `array`, zero standing for a hole.
pub open spec fn runs_of(array: Seq<u64>, n: int) -> Seq<DevicePage>
    decreases n,
{
    if n <= 0 {
        Seq::empty()
    } else {
        pushed(runs_of(array, n - 1), DevicePage::single(array[n - 1]))
    }
}

/// Whether the runs of `array` stay within the integers that hold a run.
pub open spec fn countable(array: Seq<u64>) -> bool {
    forall|i: int|
        0 <= i < array.len() ==> pushable(
            #[trigger] runs_of(array, i),
            DevicePage::single(array[i]),
        )
}

/// What a `mayheap::Vec` of device pages holds, in order.
pub uninterp spec fn device_pages(list: mayheap::Vec<DevicePage, MAYHEAP_LEN>) -> Seq<DevicePage>;

/// `mayheap::Vec::new`: the new list is empty.
#[verifier::external_body]
pub(crate) fn new_device_pages() -> (list: mayheap::Vec<DevicePage, MAYHEAP_LEN>)
    ensures
        device_pages(list) == Seq::<DevicePage>::empty(),
{
    mayheap::Vec::new()
}

/// `mayheap::Vec::push`: the item goes to the end. Backed by the allocator, as the crate is built
/// by default, the list has no capacity to run out of, so the push is never refused.
#[verifier::external_body]
pub(crate) fn append_device_page(
    list: &mut mayheap::Vec<DevicePage, MAYHEAP_LEN>,
    item: DevicePage,
) -> (res: Result<(), DevicePage>)
    ensures
        res is Ok,
        device_pages(*final(list)) == device_pages(*old(list)).push(item),
{
    list.push(item)
}

/// `mayheap::Vec::as_mut_slice`: the items in order, and what is written to the slice is what the
/// list then holds.
#[verifier::external_body]
pub(crate) fn device_pages_slice_mut(list: &mut mayheap::Vec<DevicePage, MAYHEAP_LEN>) -> (slice:
    &mut [DevicePage])
    ensures
        slice@ == device_pages(*old(list)),
        device_pages(*final(list)) == final(slice)@,
{
    list.as_mut_slice()
}

impl DevicePage {
    /// The runs of an array of block numbers, one page each, zero standing for a hole.
    pub fn from_array(array: &[u64]) -> (pages: mayheap::Vec<DevicePage, MAYHEAP_LEN>)
        requires
            countable(array@),
        ensures
            device_pages(pages) == runs_of(array@, array@.len() as int),
            backing(device_pages(pages)) == Seq::new(
                array@.len(),
                |i: int|
                    if array@[i] == 0 {
                        None
                    } else {
                        Some(array@[i] as int)
                    },
            ),
            coalesced(device_pages(pages)),
            forall|i: int|
                0 <= i < device_pages(pages).len() ==> (#[trigger] device_pages(pages)[i]).pages()
                    > 0,
    {
        let mut pages = new_device_pages();
        let mut i: usize = 0;
        while i < array.len()
            invariant
                i <= array.len(),
                countable(array@),
                device_pages(pages) == runs_of(array@, i as int),
            decreases array.len() - i,
        {
            let item = if array[i] == 0 {
                DevicePage::Hole(1)
            } else {
                DevicePage::Run(array[i], 1)
            };
            assert(pushable(runs_of(array@, i as int), DevicePage::single(array@[i as int])));
            push_device_page(&mut pages, item);
            i = i + 1;
        }
        proof {
            lemma_runs_of(array@, array@.len() as int);
        }
        pages
    }

    /// Joins `other` to the end of this run if it goes on where the run ends.
    pub fn try_extend(&mut self, other: &DevicePage) -> (extended: bool)
        requires
            old(self).extendable(*other),
        ensures
            extended == old(self).joins(*other),
            extended ==> *final(self) == old(self).joined(*other),
            extended ==> final(self).blocks() == old(self).blocks() + other.blocks(),
            !extended ==> *final(self) == *old(self),
    {
        let new_val = match (*self, *other) {
            (DevicePage::Hole(len1), DevicePage::Hole(len2)) => Some(DevicePage::Hole(len1 + len2)),
            (DevicePage::Run(start1, len1), DevicePage::Run(start2, len2)) => {
                if start1 + len1 as u64 == start2 {
                    Some(DevicePage::Run(start1, len1 + len2))
                } else {
                    None
                }
            },
            _ => None,
        };
        if let Some(new_val) = new_val {
            proof {
                lemma_joined_blocks(*self, *other);
            }
            *self = new_val;
            true
        } else {
            false
        }
    }

    /// How many pages the run holds.
    pub fn nr_pages(&self) -> (nr: usize)
        ensures
            nr == self.pages(),
            nr == self.blocks().len(),
    {
        match self {
            DevicePage::Run(_, len) => *len as usize,
            DevicePage::Hole(len) => *len as usize,
        }
    }

    /// The length of a hole, `None` for a run with blocks behind it.
    pub fn as_hole(&self) -> (hole: Option<u32>)
        ensures
            hole == (match *self {
                DevicePage::Hole(len) => Some(len),
                DevicePage::Run(..) => None,
            }),
    {
        match self {
            DevicePage::Hole(len) => Some(*len),
            _ => None,
        }
    }

    /// Drops up to `avail_len` pages from the front of the run, and leaves in `avail_len` how many
    /// were dropped. Only the low 32 bits of `avail_len` count.
    pub fn offset(&mut self, avail_len: &mut usize)
        requires
            *old(self) matches DevicePage::Run(start, len) ==> start + dropped(
                len as int,
                *old(avail_len) as int,
            ) <= u64::MAX,
        ensures
            *final(avail_len) == dropped(old(self).pages() as int, *old(avail_len) as int),
            *final(self) == old(self).skipped(*final(avail_len) as nat),
            final(self).blocks() == old(self).blocks().skip(*final(avail_len) as int),
    {
        let wanted: u32 = num::low_u32(*avail_len as u64);
        let ghost before = *self;
        let new = match *self {
            DevicePage::Run(start, len) => {
                let new_len: u32 = len.saturating_sub(wanted);
                let diff: u32 = len - new_len;
                *avail_len = diff as usize;
                DevicePage::Run(start + diff as u64, new_len)
            },
            DevicePage::Hole(len) => {
                let new_len: u32 = len.saturating_sub(wanted);
                let diff: u32 = len - new_len;
                *avail_len = diff as usize;
                DevicePage::Hole(new_len)
            },
        };
        *self = new;
        assert(self.blocks() =~= before.blocks().skip(*avail_len as int));
    }
}

/// How many of `len` pages go when `avail` are asked for in 32 bits.
pub open spec fn dropped(len: int, avail: int) -> int {
    if avail % num::two32() < len {
        avail % num::two32()
    } else {
        len
    }
}

/// Append `item` to `out`, merging it into the previous entry when the two are contiguous.
pub fn push_device_page(out: &mut mayheap::Vec<DevicePage, MAYHEAP_LEN>, item: DevicePage)
    requires
        pushable(device_pages(*old(out)), item),
    ensures
        device_pages(*final(out)) == pushed(device_pages(*old(out)), item),
        backing(device_pages(*final(out))) == backing(device_pages(*old(out))) + item.blocks(),
{
    proof {
        if device_pages(*out).len() > 0 && device_pages(*out).last().joins(item) {
            lemma_joined_blocks(device_pages(*out).last(), item);
        }
        lemma_pushed_backing(device_pages(*out), item);
    }
    let ghost before = device_pages(*out);
    let slice = device_pages_slice_mut(out);
    if let Some(prev) = slice.last_mut() {
        if prev.try_extend(&item) {
            assert(device_pages(*out) =~= pushed(before, item));
            return ;
        }
    }
    assert(device_pages(*out) =~= before);
    let _ = append_device_page(out, item);
}

/// Joining two runs keeps the block behind every page of both.
pub proof fn lemma_joined_blocks(a: DevicePage, b: DevicePage)
    requires
        a.joins(b),
        a.pages() + b.pages() <= u32::MAX,
    ensures
        a.joined(b).blocks() == a.blocks() + b.blocks(),
        a.joined(b).pages() == a.pages() + b.pages(),
{
    assert(a.joined(b).blocks() =~= a.blocks() + b.blocks());
}

/// Pushing a run keeps the block behind every page that the list held, and adds those of the run.
pub proof fn lemma_pushed_backing(pages: Seq<DevicePage>, item: DevicePage)
    requires
        pushable(pages, item),
    ensures
        backing(pushed(pages, item)) == backing(pages) + item.blocks(),
        total_device_pages(pushed(pages, item)) == total_device_pages(pages) + item.pages(),
{
    if pages.len() > 0 && pages.last().joins(item) {
        let last = pages.last().joined(item);
        lemma_joined_blocks(pages.last(), item);
        assert(pages.drop_last().push(last).drop_last() =~= pages.drop_last());
        assert(backing(pages.drop_last().push(last)) =~= backing(pages) + item.blocks());
    } else {
        assert(pages.push(item).drop_last() =~= pages);
    }
}

/// A list of runs holds as many pages as it has blocks or holes to back them.
pub proof fn lemma_backing_len(pages: Seq<DevicePage>)
    ensures
        backing(pages).len() == total_device_pages(pages),
    decreases pages.len(),
{
    if pages.len() > 0 {
        lemma_backing_len(pages.drop_last());
    }
}

proof fn lemma_runs_of(array: Seq<u64>, n: int)
    requires
        countable(array),
        0 <= n <= array.len(),
    ensures
        backing(runs_of(array, n)) == Seq::new(
            n as nat,
            |i: int|
                if array[i] == 0 {
                    None
                } else {
                    Some(array[i] as int)
                },
        ),
        coalesced(runs_of(array, n)),
        forall|i: int|
            0 <= i < runs_of(array, n).len() ==> (#[trigger] runs_of(array, n)[i]).pages() > 0,
        n > 0 ==> runs_of(array, n).len() > 0,
    decreases n,
{
    if n > 0 {
        let item = DevicePage::single(array[n - 1]);
        let before = runs_of(array, n - 1);
        lemma_runs_of(array, n - 1);
        assert(pushable(before, item));
        lemma_pushed_backing(before, item);
        assert(backing(runs_of(array, n)) =~= Seq::new(
            n as nat,
            |i: int|
                if array[i] == 0 {
                    None
                } else {
                    Some(array[i] as int)
                },
        ));
        if before.len() > 0 && before.last().joins(item) {
            let after = pushed(before, item);
            lemma_joined_blocks(before.last(), item);
            assert forall|i: int| 0 < i < after.len() implies !(#[trigger] after[i - 1]).joins(
                after[i],
            ) by {
                assert(!before[i - 1].joins(before[i]));
            }
        }
    } else {
        assert(backing(runs_of(array, n)) =~= Seq::new(
            0,
            |i: int|
                if array[i] == 0 {
                    None
                } else {
                    Some(array[i] as int)
                },
        ));
    }
}

/// Every array that is short enough for one run to hold it, and that names no block at the very
/// end of the block numbers, has runs that can be counted.
pub proof fn lemma_short_arrays_are_countable(array: Seq<u64>)
    requires
        array.len() <= u32::MAX,
        forall|i: int| 0 <= i < array.len() ==> (#[trigger] array[i]) < u64::MAX,
    ensures
        countable(array),
{
    assert forall|i: int| 0 <= i < array.len() implies pushable(
        #[trigger] runs_of(array, i),
        DevicePage::single(array[i]),
    ) by {
        lemma_last_run(array, i);
    }
}

proof fn lemma_last_run(array: Seq<u64>, n: int)
    requires
        0 <= n <= array.len() <= u32::MAX,
        forall|i: int| 0 <= i < array.len() ==> (#[trigger] array[i]) < u64::MAX,
    ensures
        runs_of(array, n).len() > 0 ==> runs_of(array, n).last().pages() <= n,
        runs_of(array, n).len() > 0 ==> (runs_of(array, n).last() matches DevicePage::Run(s, l)
            ==> s + l <= u64::MAX),
    decreases n,
{
    if n > 0 {
        lemma_last_run(array, n - 1);
        let item = DevicePage::single(array[n - 1]);
        let before = runs_of(array, n - 1);
        if before.len() > 0 && before.last().joins(item) {
            lemma_joined_blocks(before.last(), item);
            assert(before.last().joined(item).pages() <= n);
        }
    }
}

/// The one page that lies on `block`, or a hole of one page.
pub open spec fn page_on(block: Option<int>) -> DevicePage {
    match block {
        Some(b) => DevicePage::Run(b as u64, 1),
        None => DevicePage::Hole(1),
    }
}

/// `pages` with one page for each of `blocks` behind it, joined to runs where they join.
pub open spec fn push_all(pages: Seq<DevicePage>, blocks: Seq<Option<int>>) -> Seq<DevicePage>
    decreases blocks.len(),
{
    if blocks.len() == 0 {
        pages
    } else {
        pushed(push_all(pages, blocks.drop_last()), page_on(blocks.last()))
    }
}

/// Whether `nr` more pages, the first of them on `block`, fit behind `pages` within the integers
/// that hold a run.
pub open spec fn room_behind(pages: Seq<DevicePage>, block: Option<int>, nr: int) -> bool {
    pages.len() > 0 ==> {
        &&& pages.last() matches DevicePage::Run(start, len) ==> (block is Some ==> start + len
            <= u64::MAX)
        &&& pages.last().joins(page_on(block)) ==> pages.last().pages() + nr <= u32::MAX
    }
}

/// Pushing a run is pushing its pages one by one.
pub proof fn lemma_push_run(pages: Seq<DevicePage>, item: DevicePage)
    requires
        item.pages() > 0,
        item matches DevicePage::Run(start, len) ==> start + len <= u64::MAX,
        pushable(pages, item),
    ensures
        pushed(pages, item) == push_all(pages, item.blocks()),
    decreases item.pages(),
{
    let shorter = match item {
        DevicePage::Run(start, len) => DevicePage::Run(start, (len - 1) as u32),
        DevicePage::Hole(len) => DevicePage::Hole((len - 1) as u32),
    };
    assert(item.blocks().drop_last() =~= shorter.blocks());
    if item.pages() == 1 {
        assert(push_all(pages, shorter.blocks()) == pages);
    } else {
        lemma_push_run(pages, shorter);
        let last = page_on(item.blocks().last());
        let before = pushed(pages, shorter);
        assert(before.last().joins(last));
        assert(pushed(before, last) =~= pushed(pages, item));
    }
}

/// Pushing pages in two parts is pushing them all.
pub proof fn lemma_push_all_concat(
    pages: Seq<DevicePage>,
    a: Seq<Option<int>>,
    b: Seq<Option<int>>,
)
    ensures
        push_all(pages, a + b) == push_all(push_all(pages, a), b),
    decreases b.len(),
{
    if b.len() == 0 {
        assert(a + b =~= a);
    } else {
        assert((a + b).drop_last() =~= a + b.drop_last());
        lemma_push_all_concat(pages, a, b.drop_last());
    }
}

/// Pushing pages keeps the block behind every page that the list held, and adds the pushed ones.
pub proof fn lemma_push_all_backing(pages: Seq<DevicePage>, blocks: Seq<Option<int>>)
    requires
        blocks.len() <= u32::MAX,
        blocks.len() > 0 ==> room_behind(pages, blocks[0], blocks.len() as int),
        forall|i: int|
            0 <= i < blocks.len() ==> ((#[trigger] blocks[i]) matches Some(b) ==> 0 <= b
                < u64::MAX),
    ensures
        backing(push_all(pages, blocks)) == backing(pages) + blocks,
        blocks.len() > 0 ==> {
            let last = push_all(pages, blocks).last();
            &&& push_all(pages, blocks).len() > 0
            &&& last matches DevicePage::Run(start, len) ==> start + len <= u64::MAX
            &&& last.pages() <= blocks.len() || (pages.len() > 0 && pages.last().joins(
                page_on(blocks[0]),
            ) && last.pages() <= pages.last().pages() + blocks.len())
        },
    decreases blocks.len(),
{
    if blocks.len() == 0 {
        assert(backing(pages) + blocks =~= backing(pages));
    } else {
        let front = blocks.drop_last();
        lemma_push_all_backing(pages, front);
        let before = push_all(pages, front);
        let item = page_on(blocks.last());
        assert(item.blocks() =~= seq![blocks.last()]);
        if front.len() == 0 {
            assert(before == pages);
        }
        lemma_pushed_backing(before, item);
        assert(backing(pages) + front + item.blocks() =~= backing(pages) + blocks);
        if before.len() > 0 && before.last().joins(item) {
            lemma_joined_blocks(before.last(), item);
        }
    }
}

/// Whether `nr` more pages fit behind `pages` within the integers that hold a run, wherever they
/// lie.
pub open spec fn tail_fits(pages: Seq<DevicePage>, nr: int) -> bool {
    &&& nr <= u32::MAX
    &&& pages.len() > 0 ==> {
        &&& pages.last().pages() + nr <= u32::MAX
        &&& pages.last() matches DevicePage::Run(start, len) ==> start + len <= u64::MAX
    }
}

/// Pushing a run leaves room for the rest of the pages.
pub proof fn lemma_pushed_tail(pages: Seq<DevicePage>, item: DevicePage, nr: int)
    requires
        tail_fits(pages, nr),
        item.pages() <= nr,
        item matches DevicePage::Run(start, len) ==> start + len <= u64::MAX,
    ensures
        pushable(pages, item),
        tail_fits(pushed(pages, item), nr - item.pages()),
{
}

/// Pushing pages leaves room for the rest of them.
pub proof fn lemma_push_all_tail(pages: Seq<DevicePage>, blocks: Seq<Option<int>>, nr: int)
    requires
        tail_fits(pages, nr),
        blocks.len() <= nr,
        forall|i: int|
            0 <= i < blocks.len() ==> ((#[trigger] blocks[i]) matches Some(b) ==> 0 <= b
                < u64::MAX),
    ensures
        tail_fits(push_all(pages, blocks), nr - blocks.len()),
    decreases blocks.len(),
{
    if blocks.len() > 0 {
        let front = blocks.drop_last();
        lemma_push_all_tail(pages, front, nr);
        assert(blocks[blocks.len() - 1] == blocks.last());
        lemma_pushed_tail(push_all(pages, front), page_on(blocks.last()), nr - front.len());
    }
}

/// Whether a list of runs has no hole.
pub open spec fn no_holes(pages: Seq<DevicePage>) -> bool {
    forall|i: int| 0 <= i < pages.len() ==> (#[trigger] pages[i]) is Run
}

/// Pushing pages that lie on blocks makes no hole.
pub proof fn lemma_push_all_no_holes(pages: Seq<DevicePage>, blocks: Seq<Option<int>>)
    requires
        no_holes(pages),
        forall|i: int| 0 <= i < blocks.len() ==> (#[trigger] blocks[i]) is Some,
    ensures
        no_holes(push_all(pages, blocks)),
    decreases blocks.len(),
{
    if blocks.len() > 0 {
        assert(blocks[blocks.len() - 1] is Some);
        lemma_push_all_no_holes(pages, blocks.drop_last());
    }
}

/// The pages of a run lie on the blocks from its first one on, one behind another, and those of a
/// hole on none.
pub proof fn lemma_blocks_of_a_run(start: u64, len: u32)
    ensures
        DevicePage::Run(start, len).pages() == len,
        DevicePage::Run(start, len).blocks().len() == len,
        forall|i: int|
            0 <= i < len ==> #[trigger] DevicePage::Run(start, len).blocks()[i] == Some(start + i),
        DevicePage::Hole(len).pages() == len,
        DevicePage::Hole(len).blocks().len() == len,
        forall|i: int|
            0 <= i < len ==> #[trigger] DevicePage::Hole(len).blocks()[i] == None::<int>,
{
}

/// Two runs join exactly where one run lies on the blocks of the first with those of the second
/// behind them, and joining them makes that run.
pub proof fn lemma_joins_where_one_run_holds_both(a: DevicePage, b: DevicePage)
    requires
        a.pages() > 0,
        b.pages() > 0,
        a.pages() + b.pages() <= u32::MAX,
    ensures
        a.joins(b) <==> exists|c: DevicePage| #[trigger] c.blocks() == a.blocks() + b.blocks(),
        a.joins(b) ==> a.joined(b).blocks() == a.blocks() + b.blocks(),
{
    let both = a.blocks() + b.blocks();
    if a.joins(b) {
        lemma_joined_blocks(a, b);
        assert(a.joined(b).blocks() == both);
    }
    assert forall|c: DevicePage| #[trigger] c.blocks() == both implies a.joins(b) by {
        assert(both[0] == a.blocks()[0]);
        assert(both[a.pages() as int] == b.blocks()[0]);
        let mid = a.pages() as int;
        assert(c.blocks().len() == a.pages() + b.pages());
        match c {
            DevicePage::Run(start, len) => {
                assert(c.blocks()[0] == Some(start + 0));
                assert(c.blocks()[mid] == Some(start + mid));
            },
            DevicePage::Hole(len) => {
                assert(c.blocks()[0] == None::<int>);
                assert(c.blocks()[mid] == None::<int>);
            },
        }
    }
}

/// Pushing a run behind a list merges it into the last one where they are both holes, or where its
/// first block is the one behind those of the last run, and appends it everywhere else. No other
/// run of the list changes.
pub proof fn lemma_pushed_merges(pages: Seq<DevicePage>, item: DevicePage)
    ensures
        ({
            let merged = pages.len() > 0 && match (pages.last(), item) {
                (DevicePage::Hole(_), DevicePage::Hole(_)) => true,
                (DevicePage::Run(s, l), DevicePage::Run(t, _)) => s + l == t,
                _ => false,
            };
            &&& merged ==> pushed(pages, item).len() == pages.len()
            &&& !merged ==> pushed(pages, item) == pages.push(item)
            &&& forall|i: int|
                0 <= i < pages.len() - 1 ==> #[trigger] pushed(pages, item)[i] == pages[i]
        }),
{
}

/// The blocks behind two lists of runs, one put behind the other, are those behind the one with
/// those behind the other after them. So are their pages counted.
pub proof fn lemma_backing_concat(a: Seq<DevicePage>, b: Seq<DevicePage>)
    ensures
        backing(a + b) == backing(a) + backing(b),
        total_device_pages(a + b) == total_device_pages(a) + total_device_pages(b),
    decreases b.len(),
{
    if b.len() == 0 {
        assert(a + b =~= a);
        assert(backing(a) + backing(b) =~= backing(a));
    } else {
        assert((a + b).drop_last() =~= a + b.drop_last());
        lemma_backing_concat(a, b.drop_last());
        assert(backing(a) + backing(b.drop_last()) + b.last().blocks() =~= backing(a) + (backing(
            b.drop_last(),
        ) + b.last().blocks()));
    }
}

/// The blocks behind a list of one run are those of the run, and an empty list has none.
pub proof fn lemma_backing_of_one(item: DevicePage)
    ensures
        backing(Seq::empty()) == Seq::<Option<int>>::empty(),
        total_device_pages(Seq::empty()) == 0,
        backing(seq![item]) == item.blocks(),
        total_device_pages(seq![item]) == item.pages(),
{
    assert(seq![item].drop_last() =~= Seq::empty());
    assert(backing(Seq::empty()) + item.blocks() =~= item.blocks());
    assert(total_device_pages(Seq::empty()) == 0);
}

/// The pages of the run numbered `k` stand behind those of all the runs before it.
pub proof fn lemma_backing_at(pages: Seq<DevicePage>, k: int)
    requires
        0 <= k < pages.len(),
    ensures
        total_device_pages(pages.take(k)) + pages[k].pages() <= backing(pages).len(),
        forall|i: int|
            0 <= i < pages[k].pages() ==> backing(pages)[total_device_pages(pages.take(k)) + i]
                == #[trigger] pages[k].blocks()[i],
{
    let front = pages.take(k);
    let rest = pages.skip(k + 1);
    assert(pages =~= (front + seq![pages[k]]) + rest);
    lemma_backing_concat(front + seq![pages[k]], rest);
    lemma_backing_concat(front, seq![pages[k]]);
    lemma_backing_of_one(pages[k]);
    lemma_backing_len(front);
}

/// Dropping pages from a run drops as many as are asked for, or all where there are no more. Of
/// what is asked for the low 32 bits count.
pub proof fn lemma_dropped_is_the_smaller(len: int, avail: int)
    requires
        0 <= len <= 0xffff_ffff,
        0 <= avail,
    ensures
        dropped(len, avail) <= len,
        dropped(len, avail) <= avail % 0x1_0000_0000,
        dropped(len, avail) == len || dropped(len, avail) == avail % 0x1_0000_0000,
        avail <= len ==> dropped(len, avail) == avail,
        len <= avail <= 0xffff_ffff ==> dropped(len, avail) == len,
{
}

/// What is left of a run when `taken` pages are dropped lies on the blocks behind those.
pub proof fn lemma_skipped_blocks(page: DevicePage, taken: nat)
    requires
        taken <= page.pages(),
        page matches DevicePage::Run(start, _) ==> start + taken <= u64::MAX,
    ensures
        page.skipped(taken).blocks() == page.blocks().skip(taken as int),
        page.skipped(taken) is Hole <==> page is Hole,
{
    assert(page.skipped(taken).blocks() =~= page.blocks().skip(taken as int));
}

} // verus!
