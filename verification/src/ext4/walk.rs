//! Walking the block map of a file.
//!
//! A walk asks the file system for one run of blocks after another. The decisions are here: a
//! [`BlockWalk`] says where a walk stands, [`BlockWalk::next`] says what to ask, and
//! [`BlockWalk::record`] takes the answer.

use vstd::prelude::*;

use crate::error::ErrorKind;
use crate::extents::extent_map::Extent;
use crate::extents::object;
use crate::num;
use crate::paged_object_store::device_page;
use crate::paged_object_store::device_page::DevicePage;
use crate::paged_object_store::MAYHEAP_LEN;
use crate::PAGE_SIZE;

verus! {

/// Block lookups performed per acquisition of the fs lock, between yields.
pub const BLOCKS_PER_LOCK: usize = 100;

/// Extra blocks a read-side walk asks about beyond the request.
///
/// A lookup returns one whole contiguous run and stops at the count asked for, so asking only for
/// the pages requested means learning exactly the requested range and nothing more -- and a
/// forward-sequential reader, which asks for the *next* range every time, can then never hit the
/// cache. Read side only: widening the ask under `create` would allocate blocks nobody asked for.
pub const EXTENT_READAHEAD_BLOCKS: u32 = 4096;

/// Pages a read-side walk continues *past* the request, to learn extents it will not emit.
pub const EXTENT_WALK_AHEAD_PAGES: u64 = 0;

/// What a `mayheap::Vec` of learned extents holds, in order.
pub uninterp spec fn learned_extents(
    list: mayheap::Vec<(u64, Option<u64>, u32), MAYHEAP_LEN>,
) -> Seq<(u64, Option<u64>, u32)>;

/// `mayheap::Vec::new`: the new list is empty.
#[verifier::external_body]
pub(crate) fn new_learned() -> (list: mayheap::Vec<(u64, Option<u64>, u32), MAYHEAP_LEN>)
    ensures
        learned_extents(list) == Seq::<(u64, Option<u64>, u32)>::empty(),
{
    mayheap::Vec::new()
}

/// `mayheap::Vec::push`: the item goes to the end. Backed by the allocator, as the crate is built
/// by default, the list has no capacity to run out of, so the push is never refused.
#[verifier::external_body]
fn append_learned(
    list: &mut mayheap::Vec<(u64, Option<u64>, u32), MAYHEAP_LEN>,
    item: (u64, Option<u64>, u32),
) -> (res: Result<(), (u64, Option<u64>, u32)>)
    ensures
        res is Ok,
        learned_extents(*final(list)) == learned_extents(*old(list)).push(item),
{
    list.push(item)
}

/// `mayheap::Vec::as_slice`: the items in order.
#[verifier::external_body]
pub(crate) fn learned_slice(
    list: &mayheap::Vec<(u64, Option<u64>, u32), MAYHEAP_LEN>,
) -> (slice: &[(u64, Option<u64>, u32)])
    ensures
        slice@ == learned_extents(*list),
{
    list.as_slice()
}

/// Block index backing object page `page`. External files have no null page, so their object
/// pages sit one block lower than an internal object's. Both paging paths and the page-out
/// file-extension check go through here so they cannot disagree about the mapping.
pub fn page_to_block(external: bool, page: u64) -> (block: u64)
    ensures
        block == block_of(external, page as int),
{
    if external && page > 0 {
        page - 1
    } else {
        page
    }
}

/// The block of a file that backs an object page.
pub open spec fn block_of(external: bool, page: int) -> int {
    if external && page > 0 {
        page - 1
    } else {
        page
    }
}

/// How far to walk for *learning*, as opposed to how far to emit: up to `ahead` pages past `end`,
/// but never past the end of the file. Never speculative under `create` -- widening an allocation
/// walk would allocate blocks nobody asked for. An unknown length means no speculation at all
/// rather than a guess.
pub open spec fn target_of(create: bool, end: int, len: Option<Option<u64>>, ahead: int) -> int {
    if create || ahead == 0 {
        end
    } else {
        match len {
            Some(Some(len)) => {
                let pages = (len + PAGE_SIZE - 1) / PAGE_SIZE as int;
                let wide = if end + ahead < pages {
                    end + ahead
                } else {
                    pages
                };
                if wide > end {
                    wide
                } else {
                    end
                }
            },
            _ => end,
        }
    }
}

/// See [`target_of`].
pub fn learn_end(create: bool, end: u64, len: Option<Option<u64>>, ahead: u64) -> (target: u64)
    requires
        end + ahead <= u64::MAX,
    ensures
        target == target_of(create, end as int, len, ahead as int),
        end <= target <= end + ahead,
{
    if create || ahead == 0 {
        return end;
    }
    match len {
        Some(Some(len)) => {
            let whole: u64 = len / PAGE_SIZE as u64;
            let pages: u64 = if len % PAGE_SIZE as u64 == 0 {
                whole
            } else {
                whole + 1
            };
            let wide: u64 = if end + ahead < pages {
                end + ahead
            } else {
                pages
            };
            if wide > end {
                wide
            } else {
                end
            }
        },
        _ => end,
    }
}

/// How far a walk of the block map has come.
#[derive(Clone, Copy, Debug, PartialEq, Eq, Structural)]
pub struct BlockWalk {
    /// The next object page.
    pub page: u64,
    /// The page behind the last one to emit.
    pub end: u64,
    /// The page behind the last one to learn about.
    pub learn_end: u64,
    /// Whether holes get blocks.
    pub create: bool,
    /// Whether the file is an external one.
    pub external: bool,
    /// Lookups made under the present acquisition of the fs lock.
    pub in_chunk: usize,
    /// Lookups made in all.
    pub lookups: u64,
}

/// What is to be done next.
#[derive(Clone, Copy, Debug, PartialEq, Eq, Structural)]
pub enum WalkStep {
    /// Let go of the fs lock, and take it again.
    Yield,
    /// Look up the run of blocks that starts at `block` of the file.
    Lookup {
        /// The first block of the file to ask about.
        block: u32,
        /// How many blocks to ask about.
        count: u32,
    },
    /// The walk is over.
    Done,
}

/// What a lookup found, or that a single block has to be asked for.
#[derive(Clone, Copy, Debug, PartialEq, Eq, Structural)]
pub enum Found {
    /// So many blocks from this one on, or so many holes.
    Run(Option<u64>, u32),
    /// Nothing: ask for the one block.
    AskSingle,
}

/// Reads the answer to a lookup of a run: a block number of zero stands for holes. Where nothing
/// came back -- an error, or a run of no blocks -- the one block is asked for instead.
pub fn read_run(answer: Option<(u64, u32)>) -> (found: Found)
    ensures
        found == (match answer {
            Some((block, nr)) => if nr == 0 {
                Found::AskSingle
            } else if block == 0 {
                Found::Run(None, nr)
            } else {
                Found::Run(Some(block), nr)
            },
            None => Found::AskSingle,
        }),
{
    match answer {
        Some((block, nr)) => {
            if nr > 0 {
                Found::Run(
                    if block != 0 {
                        Some(block)
                    } else {
                        None
                    },
                    nr,
                )
            } else {
                Found::AskSingle
            }
        },
        None => Found::AskSingle,
    }
}

/// Reads the answer to a lookup of one block: zero stands for a hole.
pub fn read_single(block: u64) -> (found: (Option<u64>, u32))
    ensures
        found == (if block == 0 {
            (None::<u64>, 1u32)
        } else {
            (Some(block), 1u32)
        }),
{
    if block == 0 {
        (None, 1)
    } else {
        (Some(block), 1)
    }
}

/// The run of `nr` pages that lie on the blocks from `pblock` on, or that are holes.
pub open spec fn run_of(pblock: Option<u64>, nr: u32) -> DevicePage {
    match pblock {
        Some(block) => DevicePage::Run(block, nr),
        None => DevicePage::Hole(nr),
    }
}

impl BlockWalk {
    /// Whether the walk goes at least as far for learning as for emitting, and not farther than a
    /// request can ask.
    pub open spec fn wf(self) -> bool {
        &&& self.end <= self.learn_end
        &&& self.page < self.end ==> self.end - self.page <= u32::MAX
        &&& self.create ==> self.learn_end == self.end
        &&& self.in_chunk <= BLOCKS_PER_LOCK
    }

    /// How many of `nr` pages from the walk's page on are emitted.
    pub open spec fn emitted(self, nr: u32) -> u32 {
        if nr <= self.end - self.page {
            nr
        } else {
            (self.end - self.page) as u32
        }
    }

    /// Whether the answer that the `nr` pages from the walk's page on lie at `pblock` stays within
    /// the integers that count pages and blocks, with `out` emitted so far. An answer that is an
    /// error always does.
    pub open spec fn recordable(self, pblock: Option<u64>, nr: u32, out: Seq<DevicePage>) -> bool {
        self.create && pblock is None || {
            &&& object::learnable((self.page, pblock, nr))
            &&& self.page < self.end ==> device_page::pushable(
                out,
                run_of(pblock, self.emitted(nr)),
            )
        }
    }

    /// What is to be done next.
    pub open spec fn step(self) -> WalkStep {
        if self.in_chunk >= BLOCKS_PER_LOCK {
            WalkStep::Yield
        } else if self.page >= self.learn_end {
            WalkStep::Done
        } else {
            WalkStep::Lookup {
                block: (block_of(self.external, self.page as int) % num::two32()) as u32,
                count: if self.create {
                    (self.end - self.page) as u32
                } else {
                    let rest = (self.learn_end - self.page) % num::two32();
                    if rest + EXTENT_READAHEAD_BLOCKS > u32::MAX {
                        u32::MAX
                    } else {
                        (rest + EXTENT_READAHEAD_BLOCKS) as u32
                    }
                },
            }
        }
    }

    /// A walk of the pages `[page, end)`. `len` is the length of the object, as far as it is known.
    pub fn begin(
        page: u64,
        end: u64,
        create: bool,
        external: bool,
        len: Option<Option<u64>>,
    ) -> (walk: BlockWalk)
        requires
            page <= end,
            end - page <= u32::MAX,
        ensures
            walk.wf(),
            walk == (BlockWalk {
                page,
                end,
                learn_end: target_of(create, end as int, len, EXTENT_WALK_AHEAD_PAGES as int) as u64,
                create,
                external,
                in_chunk: 0,
                lookups: 0,
            }),
    {
        let target = learn_end(create, end, len, EXTENT_WALK_AHEAD_PAGES);
        BlockWalk { page, end, learn_end: target, create, external, in_chunk: 0, lookups: 0 }
    }

    /// What is to be done next. A lookup is counted as made.
    pub fn next(&mut self) -> (step: WalkStep)
        requires
            old(self).wf(),
            old(self).lookups < u64::MAX,
        ensures
            final(self).wf(),
            step == old(self).step(),
            *final(self) == (match step {
                WalkStep::Yield => BlockWalk { in_chunk: 0, ..*old(self) },
                WalkStep::Lookup { .. } => BlockWalk {
                    in_chunk: (old(self).in_chunk + 1) as usize,
                    lookups: (old(self).lookups + 1) as u64,
                    ..*old(self)
                },
                WalkStep::Done => *old(self),
            }),
    {
        if self.in_chunk >= BLOCKS_PER_LOCK {
            self.in_chunk = 0;
            return WalkStep::Yield;
        }
        if self.page >= self.learn_end {
            return WalkStep::Done;
        }
        let block: u32 = num::low_u32(page_to_block(self.external, self.page));
        let count: u32 = if self.create {
            (self.end - self.page) as u32
        } else {
            let rest: u32 = num::low_u32(self.learn_end - self.page);
            rest.saturating_add(EXTENT_READAHEAD_BLOCKS)
        };
        self.in_chunk = self.in_chunk + 1;
        self.lookups = self.lookups + 1;
        WalkStep::Lookup { block, count }
    }

    /// Takes what a lookup found: the `nr` pages from the walk's page on lie at `pblock`, or are
    /// holes. All of it is learned, but only the pages asked for are emitted: the readahead exists
    /// to make the *next* request a hit, not to widen this transfer.
    ///
    /// Under `create` a hole means that the allocation silently did not happen, and writing to
    /// block 0 would corrupt the superblock: that is an error.
    pub fn record(
        &mut self,
        pblock: Option<u64>,
        nr: u32,
        learned: &mut mayheap::Vec<(u64, Option<u64>, u32), MAYHEAP_LEN>,
        out: &mut mayheap::Vec<DevicePage, MAYHEAP_LEN>,
    ) -> (res: Result<(), ErrorKind>)
        requires
            old(self).wf(),
            nr > 0,
            old(self).recordable(pblock, nr, device_page::device_pages(*old(out))),
        ensures
            final(self).wf(),
            res is Err <==> old(self).create && pblock is None,
            res matches Err(e) ==> {
                &&& e == ErrorKind::Other
                &&& *final(self) == *old(self)
                &&& learned_extents(*final(learned)) == learned_extents(*old(learned))
                &&& device_page::device_pages(*final(out)) == device_page::device_pages(*old(out))
            },
            res is Ok ==> {
                &&& *final(self) == (BlockWalk { page: (old(self).page + nr) as u64, ..*old(self) })
                &&& learned_extents(*final(learned)) == learned_extents(*old(learned)).push(
                    (old(self).page, pblock, nr),
                )
                &&& device_page::device_pages(*final(out)) == if old(self).page < old(self).end {
                    device_page::pushed(
                        device_page::device_pages(*old(out)),
                        run_of(pblock, old(self).emitted(nr)),
                    )
                } else {
                    device_page::device_pages(*old(out))
                }
            },
            final(self).page < final(self).end && device_page::tail_fits(
                device_page::device_pages(*old(out)),
                old(self).end - old(self).page,
            ) ==> device_page::tail_fits(
                device_page::device_pages(*final(out)),
                final(self).end - final(self).page,
            ),
    {
        if self.create && pblock.is_none() {
            return Err(ErrorKind::Other);
        }
        let _ = append_learned(learned, (self.page, pblock, nr));
        if self.page < self.end {
            let rest: u32 = (self.end - self.page) as u32;
            let emit: u32 = if nr <= rest {
                nr
            } else {
                rest
            };
            let item = match pblock {
                Some(block) => DevicePage::Run(block, emit),
                None => DevicePage::Hole(emit),
            };
            proof {
                let pages = device_page::device_pages(*out);
                if device_page::tail_fits(pages, self.end - self.page) {
                    device_page::lemma_pushed_tail(pages, item, self.end - self.page);
                }
            }
            device_page::push_device_page(out, item);
        }
        self.page = self.page + nr as u64;
        Ok(())
    }

    /// Pages walked past the request because the walk was made to learn more than that. A run that
    /// merely reaches past the request is not counted: that is no policy at work.
    pub fn walked_ahead(&self) -> (pages: u64)
        ensures
            pages == (if self.learn_end > self.end && self.page > self.end {
                self.page - self.end
            } else {
                0
            }),
    {
        if self.learn_end > self.end {
            self.page.saturating_sub(self.end)
        } else {
            0
        }
    }
}

/// A list with room behind it for all the pages that a walk still has to emit takes every answer,
/// wherever the pages lie.
pub proof fn lemma_room_is_enough(walk: BlockWalk, pblock: Option<u64>, nr: u32, out: Seq<DevicePage>)
    requires
        walk.wf(),
        object::learnable((walk.page, pblock, nr)),
        walk.page < walk.end ==> device_page::tail_fits(out, walk.end - walk.page),
    ensures
        walk.recordable(pblock, nr, out),
{
    if walk.page < walk.end {
        device_page::lemma_pushed_tail(
            out,
            run_of(pblock, walk.emitted(nr)),
            walk.end - walk.page,
        );
    }
}

/// Each answer brings a walk nearer to its end, so that it comes to one.
pub proof fn lemma_walk_progress(walk: BlockWalk, nr: u32)
    requires
        walk.wf(),
        walk.page < walk.learn_end,
        nr > 0,
        walk.page + nr <= u64::MAX,
    ensures
        ({
            let after = BlockWalk { page: (walk.page + nr) as u64, ..walk };
            &&& after.wf()
            &&& after.page > walk.page
            &&& after.page >= after.learn_end || after.learn_end - after.page < walk.learn_end
                - walk.page
        }),
{
}

/// Allocating asks for the blocks of the request, and for no block more.
pub proof fn lemma_create_asks_for_no_more(walk: BlockWalk)
    requires
        walk.wf(),
        walk.create,
        walk.step() is Lookup,
    ensures
        walk.step()->count == walk.end - walk.page,
        walk.learn_end == walk.end,
{
}

/// The blocks behind the pages `[first, last)`, as `truth` gives them.
pub open spec fn true_blocks(
    truth: spec_fn(int) -> Option<int>,
    first: int,
    last: int,
) -> Seq<Option<int>> {
    Seq::new((last - first) as nat, |i: int| truth(first + i))
}

/// Whether a walk that started at page `first` with `before` in its output has emitted the block
/// of every page that it passed and was asked for, and learned nothing but the truth.
pub open spec fn walked(
    truth: spec_fn(int) -> Option<int>,
    first: int,
    walk: BlockWalk,
    learned: Seq<(u64, Option<u64>, u32)>,
    before: Seq<DevicePage>,
    out: Seq<DevicePage>,
) -> bool {
    let last = if walk.page < walk.end {
        walk.page as int
    } else {
        walk.end as int
    };
    &&& first <= last
    &&& device_page::backing(out) == device_page::backing(before) + true_blocks(
        truth,
        first,
        last,
    )
    &&& object::all_learnable(learned)
    &&& forall|i: int| 0 <= i < learned.len() ==> object::true_extent(#[trigger] learned[i], truth)
    &&& forall|page: int|
        first <= page < walk.page ==> #[trigger] object::learned_covers(learned, page)
    &&& walk.create ==> forall|i: int| 0 <= i < learned.len() ==> (#[trigger] learned[i]).1 is Some
    &&& walk.create && device_page::no_holes(before) ==> device_page::no_holes(out)
}

/// A walk that has not been anywhere has emitted nothing.
pub proof fn lemma_walk_begins(
    truth: spec_fn(int) -> Option<int>,
    walk: BlockWalk,
    before: Seq<DevicePage>,
)
    requires
        walk.page <= walk.end,
    ensures
        walked(truth, walk.page as int, walk, Seq::empty(), before, before),
{
    assert(true_blocks(truth, walk.page as int, walk.page as int) =~= Seq::empty());
    assert(device_page::backing(before) + Seq::<Option<int>>::empty() =~= device_page::backing(
        before,
    ));
}

/// Recording a true answer keeps what was emitted and learned true.
pub proof fn lemma_walk_records(
    truth: spec_fn(int) -> Option<int>,
    first: int,
    walk: BlockWalk,
    learned: Seq<(u64, Option<u64>, u32)>,
    before: Seq<DevicePage>,
    out: Seq<DevicePage>,
    pblock: Option<u64>,
    nr: u32,
)
    requires
        walk.wf(),
        walked(truth, first, walk, learned, before, out),
        nr > 0,
        object::true_extent((walk.page, pblock, nr), truth),
        !(walk.create && pblock is None),
        walk.recordable(pblock, nr, out),
    ensures
        walked(
            truth,
            first,
            BlockWalk { page: (walk.page + nr) as u64, ..walk },
            learned.push((walk.page, pblock, nr)),
            before,
            if walk.page < walk.end {
                device_page::pushed(out, run_of(pblock, walk.emitted(nr)))
            } else {
                out
            },
        ),
{
    let now = learned.push((walk.page, pblock, nr));
    assert forall|page: int| first <= page < walk.page + nr implies #[trigger]
        object::learned_covers(now, page) by {
        if page < walk.page {
            assert(object::learned_covers(learned, page));
            let i = choose|i: int|
                0 <= i < learned.len() && (#[trigger] learned[i]).0 <= page < learned[i].0
                    + learned[i].2;
            assert(now[i] == learned[i]);
        } else {
            assert(now[learned.len() as int] == (walk.page, pblock, nr));
        }
    }
    assert forall|i: int| 0 <= i < now.len() implies object::true_extent(#[trigger] now[i], truth)
        && object::learnable(now[i]) by {
        if i < learned.len() {
            assert(object::true_extent(learned[i], truth));
            assert(object::learnable(learned[i]));
        }
    }
    if walk.page < walk.end {
        let item = run_of(pblock, walk.emitted(nr));
        let page = walk.page as int;
        device_page::lemma_pushed_backing(out, item);
        assert forall|i: int| 0 <= i < item.blocks().len() implies #[trigger] item.blocks()[i]
            == truth(page + i) by {
            assert(truth(page + i) == (Extent { pblock, len: nr }).block(page + i - page));
        }
        assert(true_blocks(truth, first, page) + item.blocks() =~= true_blocks(
            truth,
            first,
            page + walk.emitted(nr),
        ));
        assert(device_page::backing(before) + true_blocks(truth, first, page) + item.blocks()
            =~= device_page::backing(before) + true_blocks(
            truth,
            first,
            page + walk.emitted(nr),
        ));
    }
}

/// A walk that is over has emitted the block of every page that was asked for, in order, and
/// nothing else.
pub proof fn lemma_walk_is_complete(
    truth: spec_fn(int) -> Option<int>,
    first: int,
    walk: BlockWalk,
    learned: Seq<(u64, Option<u64>, u32)>,
    before: Seq<DevicePage>,
    out: Seq<DevicePage>,
)
    requires
        walk.wf(),
        walked(truth, first, walk, learned, before, out),
        walk.step() is Done,
    ensures
        device_page::backing(out) == device_page::backing(before) + true_blocks(
            truth,
            first,
            walk.end as int,
        ),
{
}

/// The block that a lookup asks about is the one behind the walk's page: the block one below the
/// page in an external file, which has no null page, and the block of the page's own number in any
/// other. Block numbers have 32 bits. A lookup comes only with pages left to learn about, and with
/// the present hold of the fs lock not used up.
pub proof fn lemma_lookup_asks_for_its_page(walk: BlockWalk)
    requires
        walk.step() is Lookup,
    ensures
        walk.external && walk.page > 0 ==> walk.step()->block == (walk.page - 1) % 0x1_0000_0000,
        !walk.external ==> walk.step()->block == walk.page as int % 0x1_0000_0000,
        walk.page == 0 ==> walk.step()->block == 0,
        walk.page < walk.learn_end,
        walk.in_chunk < 100,
{
}

/// Reading and writing agree on where a page lies: two walks at one page of the same kind of file
/// ask about the same block, whether or not they allocate, and however far they go.
pub proof fn lemma_walks_agree_on_the_block(reading: BlockWalk, writing: BlockWalk)
    requires
        reading.page == writing.page,
        reading.external == writing.external,
        reading.step() is Lookup,
        writing.step() is Lookup,
    ensures
        reading.step()->block == writing.step()->block,
{
}

/// No two pages share a block, but for the null page and the page behind it in an external file.
pub proof fn lemma_pages_have_blocks_of_their_own(a: BlockWalk, b: BlockWalk)
    requires
        a.external == b.external,
        a.page < b.page <= 0xffff_ffff,
        a.step() is Lookup,
        b.step() is Lookup,
    ensures
        a.step()->block == b.step()->block <==> a.external && a.page == 0 && b.page == 1,
{
}

/// A lookup that does not allocate asks about every page left to learn about, and 4096 pages more;
/// one that allocates asks for the pages of the request. The pages left are counted in 32 bits, and
/// where the sum has no room in them, the greatest number stands for it.
pub proof fn lemma_lookup_asks_far_enough(walk: BlockWalk)
    requires
        walk.wf(),
        walk.step() is Lookup,
    ensures
        walk.create ==> walk.step()->count == walk.end - walk.page,
        ({
            let left = (walk.learn_end - walk.page) % 0x1_0000_0000;
            &&& !walk.create && left + 4096 <= 0xffff_ffff ==> walk.step()->count == left + 4096
            &&& !walk.create && left + 4096 > 0xffff_ffff ==> walk.step()->count == 0xffff_ffff
        }),
        walk.learn_end - walk.page <= 0xffff_ffff ==> walk.step()->count >= walk.learn_end
            - walk.page,
{
}

/// The lock is let go after a hundred lookups under it, and not before; a walk is over exactly
/// where it has passed the last page that it is to learn about.
pub proof fn lemma_walk_yields_and_ends(walk: BlockWalk)
    ensures
        walk.step() is Yield <==> walk.in_chunk >= 100,
        walk.in_chunk < 100 ==> (walk.step() is Done <==> walk.page >= walk.learn_end),
{
}

/// A walk learns about no page before the end of the request too few, about at most `ahead` pages
/// more, and about none beyond the last page of the file. It goes past the request only to read a
/// file whose length is known, and then as far as the file and `ahead` allow.
pub proof fn lemma_learning_stays_in_the_file(
    create: bool,
    end: int,
    len: Option<Option<u64>>,
    ahead: int,
)
    requires
        0 <= end,
        0 <= ahead,
    ensures
        end <= target_of(create, end, len, ahead) <= end + ahead,
        create ==> target_of(create, end, len, ahead) == end,
        !(len matches Some(Some(_))) ==> target_of(create, end, len, ahead) == end,
        len matches Some(Some(bytes)) ==> {
            let target = target_of(create, end, len, ahead);
            &&& target > end ==> (target - 1) * 4096 < bytes
            &&& !create && target < end + ahead ==> target * 4096 >= bytes
        },
{
}

/// The block behind each page of an object, given the block behind each block of its file.
pub open spec fn page_blocks(
    file: spec_fn(int) -> Option<int>,
    external: bool,
) -> spec_fn(int) -> Option<int> {
    |page: int|
        if external && page > 0 {
            file(page - 1)
        } else {
            file(page)
        }
}

/// Whether it is true of a file that its `nr` blocks from `block` on lie at `pblock` and behind it
/// on the device, or are holes.
pub open spec fn true_answer(
    file: spec_fn(int) -> Option<int>,
    block: int,
    pblock: Option<u64>,
    nr: u32,
) -> bool {
    forall|b: int|
        block <= b < block + nr ==> #[trigger] file(b) == (match pblock {
            Some(start) => Some(start + (b - block)),
            None => None,
        })
}

/// What is true of the file's blocks from the one that a walk asked about is true of the object's
/// pages from the walk's page on. The null page of an external file is left out: it has no block
/// of its own, and the answer for it is that for the page behind it. So are pages beyond the block
/// numbers.
pub proof fn lemma_answer_is_true_of_the_pages(
    file: spec_fn(int) -> Option<int>,
    walk: BlockWalk,
    pblock: Option<u64>,
    nr: u32,
)
    requires
        walk.step() is Lookup,
        walk.external ==> walk.page > 0,
        walk.page <= 0xffff_ffff,
        true_answer(file, walk.step()->block as int, pblock, nr),
    ensures
        object::true_extent((walk.page, pblock, nr), page_blocks(file, walk.external)),
{
    let truth = page_blocks(file, walk.external);
    let block = walk.step()->block as int;
    lemma_lookup_asks_for_its_page(walk);
    assert forall|page: int| walk.page <= page < walk.page + nr implies #[trigger] truth(page) == (
    Extent { pblock, len: nr }).block(page - walk.page) by {
        let b = block + (page - walk.page);
        assert(truth(page) == file(b));
    }
}

/// A walk that records what is true of the file at the block that it asked about goes on being
/// true of the file.
pub proof fn lemma_walk_records_an_answer(
    file: spec_fn(int) -> Option<int>,
    first: int,
    walk: BlockWalk,
    learned: Seq<(u64, Option<u64>, u32)>,
    before: Seq<DevicePage>,
    out: Seq<DevicePage>,
    pblock: Option<u64>,
    nr: u32,
)
    requires
        walk.wf(),
        walk.step() is Lookup,
        walk.external ==> walk.page > 0,
        walk.page <= 0xffff_ffff,
        walked(page_blocks(file, walk.external), first, walk, learned, before, out),
        nr > 0,
        true_answer(file, walk.step()->block as int, pblock, nr),
        !(walk.create && pblock is None),
        walk.recordable(pblock, nr, out),
    ensures
        walked(
            page_blocks(file, walk.external),
            first,
            BlockWalk { page: (walk.page + nr) as u64, ..walk },
            learned.push((walk.page, pblock, nr)),
            before,
            if walk.page < walk.end {
                device_page::pushed(out, run_of(pblock, walk.emitted(nr)))
            } else {
                out
            },
        ),
{
    lemma_answer_is_true_of_the_pages(file, walk, pblock, nr);
    lemma_walk_records(
        page_blocks(file, walk.external),
        first,
        walk,
        learned,
        before,
        out,
        pblock,
        nr,
    );
}

/// A walk that is over has put behind what stood in its output, for each page that was asked for,
/// the place of that page's block of the file.
pub proof fn lemma_walk_gives_the_file(
    file: spec_fn(int) -> Option<int>,
    first: int,
    walk: BlockWalk,
    learned: Seq<(u64, Option<u64>, u32)>,
    before: Seq<DevicePage>,
    out: Seq<DevicePage>,
)
    requires
        walk.wf(),
        0 < first,
        walked(page_blocks(file, walk.external), first, walk, learned, before, out),
        walk.step() is Done,
    ensures
        device_page::backing(out).len() == device_page::backing(before).len() + (walk.end - first),
        walk.external ==> forall|block: int|
            first - 1 <= block < walk.end - 1 ==> #[trigger] file(block) == device_page::backing(
                out,
            )[device_page::backing(before).len() + (block + 1 - first)],
        !walk.external ==> forall|block: int|
            first <= block < walk.end ==> #[trigger] file(block) == device_page::backing(
                out,
            )[device_page::backing(before).len() + (block - first)],
{
    let truth = page_blocks(file, walk.external);
    let emitted = true_blocks(truth, first, walk.end as int);
    lemma_walk_is_complete(truth, first, walk, learned, before, out);
    assert forall|page: int| first <= page < walk.end implies #[trigger] truth(page)
        == device_page::backing(out)[device_page::backing(before).len() + (page - first)] by {
        assert(emitted[page - first] == truth(first + (page - first)));
    }
    assert(walk.external ==> forall|block: int|
        first - 1 <= block < walk.end - 1 ==> #[trigger] file(block) == truth(block + 1));
    assert(!walk.external ==> forall|block: int|
        first <= block < walk.end ==> #[trigger] file(block) == truth(block));
}

/// Of an answer, as many pages are emitted as are asked for and not past the answer: the smaller of
/// the two numbers.
pub proof fn lemma_emitted_is_the_smaller(walk: BlockWalk, nr: u32)
    requires
        walk.wf(),
        walk.page < walk.end,
    ensures
        walk.emitted(nr) <= nr,
        walk.page + walk.emitted(nr) <= walk.end,
        walk.emitted(nr) == nr || walk.page + walk.emitted(nr) == walk.end,
        run_of(None, nr) == DevicePage::Hole(nr),
        forall|block: u64| #[trigger] run_of(Some(block), nr) == DevicePage::Run(block, nr),
{
}

} // verus!
