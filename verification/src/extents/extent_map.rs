//! The known part of one object's mapping from pages to blocks.

use vstd::prelude::*;

use crate::paged_object_store::device_page;
use crate::paged_object_store::device_page::DevicePage;
use crate::paged_object_store::MAYHEAP_LEN;

verus! {

/// Extents held for one object. A file fragmented past this stops being tracked rather than growing
/// without bound inside the process that manages memory pressure.
pub const MAX_EXTENTS_PER_OBJECT: usize = 64;

/// Consecutive object pages that lie on consecutive blocks, or that are all holes.
#[derive(Clone, Copy, Debug, PartialEq, Eq, Structural)]
pub struct Extent {
    /// The first block. `None` records a known hole.
    pub pblock: Option<u64>,
    /// How many pages.
    pub len: u32,
}

impl Extent {
    /// Whether `next`, on the pages right behind those of `self`, lies on the blocks right behind.
    pub open spec fn continued_by(self, next: Extent) -> bool {
        match (self.pblock, next.pblock) {
            (None, None) => true,
            (Some(a), Some(b)) => a + self.len == b,
            _ => false,
        }
    }

    /// Whether the blocks of the extent, and the one behind them, have numbers.
    pub open spec fn numbered(self) -> bool {
        self.pblock matches Some(b) ==> b + self.len <= u64::MAX
    }

    /// The block behind page `i` of the extent.
    pub open spec fn block(self, i: int) -> Option<int> {
        match self.pblock {
            Some(b) => Some(b + i),
            None => None,
        }
    }

    /// The extent without its first `n` pages.
    pub open spec fn skipped(self, n: int) -> Extent {
        Extent {
            pblock: match self.pblock {
                Some(b) => Some((b + n) as u64),
                None => None,
            },
            len: (self.len - n) as u32,
        }
    }

    /// True if `next` continues `self` with no gap, so the two may be stored as one entry.
    pub fn continues(&self, next: &Extent) -> (yes: bool)
        requires
            self.pblock is Some && next.pblock is Some ==> self.numbered(),
        ensures
            yes == self.continued_by(*next),
    {
        match (self.pblock, next.pblock) {
            (None, None) => true,
            (Some(a), Some(b)) => a + self.len as u64 == b,
            _ => false,
        }
    }
}

/// Whether the extent that starts at `run.0` covers `page`.
pub open spec fn covered_by(run: (u64, Extent), page: int) -> bool {
    run.0 <= page < run.0 + run.1.len
}

/// Whether a run is not empty and its pages and blocks have numbers.
pub open spec fn run_wf(run: (u64, Extent)) -> bool {
    &&& run.1.len > 0
    &&& run.0 + run.1.len <= u64::MAX
    &&& run.1.numbered()
}

/// Whether runs stand in the order of their pages, and share none.
pub open spec fn ordered(runs: Seq<(u64, Extent)>) -> bool {
    &&& forall|i: int| 0 <= i < runs.len() ==> run_wf(#[trigger] runs[i])
    &&& forall|i: int, j: int|
        0 <= i < j < runs.len() ==> (#[trigger] runs[i]).0 + runs[i].1.len <= (
        #[trigger] runs[j]).0
}

/// What is known of `page`: `None` if nothing is, `Some(None)` for a hole, else its block.
pub open spec fn known(runs: Seq<(u64, Extent)>, page: int) -> Option<Option<int>> {
    if exists|i: int| 0 <= i < runs.len() && covered_by(#[trigger] runs[i], page) {
        let i = choose|i: int| 0 <= i < runs.len() && covered_by(#[trigger] runs[i], page);
        Some(runs[i].1.block(page - runs[i].0))
    } else {
        None
    }
}

/// What is known of a page is what the run that covers it says.
pub proof fn lemma_known(runs: Seq<(u64, Extent)>, page: int, i: int)
    requires
        ordered(runs),
        0 <= i < runs.len(),
        covered_by(runs[i], page),
    ensures
        known(runs, page) == Some(runs[i].1.block(page - runs[i].0)),
{
    let j = choose|j: int| 0 <= j < runs.len() && covered_by(#[trigger] runs[j], page);
    if i < j {
        assert(runs[i].0 + runs[i].1.len <= runs[j].0);
    } else if j < i {
        assert(runs[j].0 + runs[j].1.len <= runs[i].0);
    }
}

/// Whether a page can be served: it is known and, under `create`, no hole.
pub open spec fn servable(runs: Seq<(u64, Extent)>, page: int, create: bool) -> bool {
    known(runs, page) is Some && (create ==> known(runs, page).unwrap() is Some)
}

/// How many of the `nr` pages from `start` on can be served before the first that cannot.
pub open spec fn served(runs: Seq<(u64, Extent)>, start: int, nr: int, create: bool) -> int
    decreases nr,
{
    if nr <= 0 || !servable(runs, start, create) {
        0
    } else {
        1 + served(runs, start + 1, nr - 1, create)
    }
}

/// The blocks of `nr` known pages from `start` on.
pub open spec fn known_blocks(runs: Seq<(u64, Extent)>, start: int, nr: int) -> Seq<Option<int>> {
    Seq::new(nr as nat, |i: int| known(runs, start + i).unwrap())
}

/// The pages that are served are the longest prefix of the range that can be.
pub proof fn lemma_served(runs: Seq<(u64, Extent)>, start: int, nr: int, create: bool)
    requires
        nr >= 0,
    ensures
        0 <= served(runs, start, nr, create) <= nr,
        forall|i: int|
            0 <= i < served(runs, start, nr, create) ==> servable(runs, #[trigger] (start + i), create),
        served(runs, start, nr, create) < nr ==> !servable(
            runs,
            start + served(runs, start, nr, create),
            create,
        ),
    decreases nr,
{
    if nr > 0 && servable(runs, start, create) {
        lemma_served(runs, start + 1, nr - 1, create);
        assert forall|i: int| 0 <= i < served(runs, start, nr, create) implies servable(
            runs,
            #[trigger] (start + i),
            create,
        ) by {
            if i > 0 {
                assert(servable(runs, (start + 1) + (i - 1), create));
            }
        }
    }
}

/// A run of pages that can be served is served whole, and what follows is served behind it.
proof fn lemma_served_run(runs: Seq<(u64, Extent)>, start: int, nr: int, n: int, create: bool)
    requires
        0 <= n <= nr,
        forall|i: int| 0 <= i < n ==> servable(runs, #[trigger] (start + i), create),
    ensures
        served(runs, start, nr, create) == n + served(runs, start + n, nr - n, create),
    decreases n,
{
    if n > 0 {
        assert(servable(runs, start + 0, create));
        assert forall|i: int| 0 <= i < n - 1 implies servable(
            runs,
            #[trigger] ((start + 1) + i),
            create,
        ) by {
            assert(servable(runs, start + (i + 1), create));
        }
        lemma_served_run(runs, start + 1, nr - 1, n - 1, create);
    }
}

/// The extents known of one object, learned under one generation.
#[derive(Debug)]
pub struct ExtentMap {
    /// Each with the first object page it covers, in the order of the pages and sharing none. A
    /// page that no entry covers is unknown.
    runs: Vec<(u64, Extent)>,
    /// Generation these entries were learned under.
    generation: u64,
}

impl ExtentMap {
    /// The runs, each with its first page.
    pub closed spec fn entries(self) -> Seq<(u64, Extent)> {
        self.runs@
    }

    /// The generation that the runs were learned under.
    pub closed spec fn learned_under(self) -> u64 {
        self.generation
    }

    /// Whether the runs stand in order and share no page.
    pub open spec fn wf(self) -> bool {
        ordered(self.entries())
    }

    /// A map that knows nothing.
    pub fn new(generation: u64) -> (map: Self)
        ensures
            map.wf(),
            map.entries() == Seq::<(u64, Extent)>::empty(),
            map.learned_under() == generation,
    {
        ExtentMap { runs: Vec::new(), generation }
    }

    /// Forgets everything.
    pub fn reset(&mut self, generation: u64)
        ensures
            final(self).wf(),
            final(self).entries() == Seq::<(u64, Extent)>::empty(),
            final(self).learned_under() == generation,
    {
        self.runs.clear();
        self.generation = generation;
    }

    /// The generation that the runs were learned under.
    pub fn generation(&self) -> (generation: u64)
        ensures
            generation == self.learned_under(),
    {
        self.generation
    }

    /// How many extents the map holds.
    pub fn nr_extents(&self) -> (nr: usize)
        ensures
            nr == self.entries().len(),
    {
        self.runs.len()
    }

    /// The extent covering `page`, with the page it starts at.
    pub fn covering(&self, page: u64) -> (run: Option<(u64, Extent)>)
        requires
            self.wf(),
        ensures
            run matches Some(r) ==> self.entries().contains(r) && covered_by(r, page as int),
            run is None <==> known(self.entries(), page as int) is None,
    {
        let mut i: usize = 0;
        while i < self.runs.len()
            invariant
                i <= self.runs.len(),
                self.wf(),
                forall|j: int|
                    0 <= j < i ==> !covered_by(#[trigger] self.entries()[j], page as int),
            decreases self.runs.len() - i,
        {
            let (start, ext) = self.runs[i];
            assert(run_wf(self.entries()[i as int]));
            if start <= page && page < start + ext.len as u64 {
                proof {
                    lemma_known(self.entries(), page as int, i as int);
                }
                return Some((start, ext));
            }
            i = i + 1;
        }
        None
    }

    /// Append device pages for `[start, start + nr)` to `out`, stopping at the first page that is
    /// unknown -- or, under `create`, a hole, which has to be allocated. Returns pages appended.
    pub fn emit(
        &self,
        start: u64,
        nr: u32,
        create: bool,
        out: &mut mayheap::Vec<DevicePage, MAYHEAP_LEN>,
    ) -> (appended: u32)
        requires
            self.wf(),
            start + nr <= u64::MAX,
            known(self.entries(), start as int) matches Some(block) ==> device_page::room_behind(
                device_page::device_pages(*old(out)),
                block,
                nr as int,
            ),
        ensures
            appended == served(self.entries(), start as int, nr as int, create),
            device_page::device_pages(*final(out)) == device_page::push_all(
                device_page::device_pages(*old(out)),
                known_blocks(self.entries(), start as int, appended as int),
            ),
    {
        let ghost before = device_page::device_pages(*out);
        let ghost runs = self.entries();
        let end: u64 = start + nr as u64;
        let mut page: u64 = start;
        let mut known_page = self.covering(page);
        proof {
            assert(known_blocks(runs, start as int, 0) =~= Seq::empty());
        }
        loop
            invariant
                self.wf(),
                runs == self.entries(),
                end == start + nr,
                start <= page <= end,
                known_page matches Some(r) ==> runs.contains(r) && covered_by(r, page as int),
                known_page is None <==> known(runs, page as int) is None,
                known(runs, start as int) matches Some(block) ==> device_page::room_behind(
                    before,
                    block,
                    nr as int,
                ),
                served(runs, start as int, nr as int, create) == (page - start) + served(
                    runs,
                    page as int,
                    end - page,
                    create,
                ),
                device_page::device_pages(*out) == device_page::push_all(
                    before,
                    known_blocks(runs, start as int, page - start),
                ),
                forall|i: int| start <= i < page ==> (#[trigger] known(runs, i)) is Some,
            ensures
                page - start == served(runs, start as int, nr as int, create),
                start <= page <= end,
                device_page::device_pages(*out) == device_page::push_all(
                    before,
                    known_blocks(runs, start as int, page - start),
                ),
            decreases end - page,
        {
            if page >= end {
                break ;
            }
            let (estart, ext) = match known_page {
                Some(run) => run,
                None => {
                    break ;
                },
            };
            let ghost k = runs.index_of((estart, ext));
            proof {
                assert(runs[k] == (estart, ext));
                assert(run_wf(runs[k]));
            }
            let skip: u64 = page - estart;
            let rest: u64 = ext.len as u64 - skip;
            let len: u32 = if rest <= end - page {
                rest as u32
            } else {
                (end - page) as u32
            };
            let item = match ext.pblock {
                Some(pblock) => DevicePage::Run(pblock + skip, len),
                None => {
                    if create {
                        proof {
                            lemma_known(runs, page as int, k);
                        }
                        break ;
                    }
                    DevicePage::Hole(len)
                },
            };
            proof {
                lemma_emit_piece(
                    runs,
                    before,
                    start as int,
                    page - start,
                    nr as int,
                    create,
                    k,
                    item,
                );
            }
            device_page::push_device_page(out, item);
            page = page + len as u64;
            known_page = self.covering(page);
        }
        (page - start) as u32
    }

    /// Whether `emit` would serve all of `[start, start + nr)`. Walks the same runs without
    /// building any output, for callers deciding whether to start the work at all.
    pub fn covers(&self, start: u64, nr: u32) -> (yes: bool)
        requires
            self.wf(),
            start + nr <= u64::MAX,
        ensures
            yes == (served(self.entries(), start as int, nr as int, false) == nr),
            yes == (forall|page: int|
                start <= page < start + nr ==> (#[trigger] known(self.entries(), page)) is Some),
    {
        let ghost runs = self.entries();
        let end: u64 = start + nr as u64;
        let mut page: u64 = start;
        while page < end
            invariant
                self.wf(),
                runs == self.entries(),
                end == start + nr,
                start <= page <= end,
                served(runs, start as int, nr as int, false) == (page - start) + served(
                    runs,
                    page as int,
                    end - page,
                    false,
                ),
                forall|i: int| start <= i < page ==> (#[trigger] known(runs, i)) is Some,
            decreases end - page,
        {
            let (estart, ext) = match self.covering(page) {
                Some(run) => run,
                None => {
                    assert(known(runs, page as int) is None);
                    return false;
                },
            };
            let ghost k = runs.index_of((estart, ext));
            assert(runs[k] == (estart, ext));
            let rest: u64 = ext.len as u64 - (page - estart);
            let len: u64 = if rest <= end - page {
                rest
            } else {
                end - page
            };
            proof {
                assert forall|i: int| page <= i < page + len implies (#[trigger] known(runs, i))
                    == Some(ext.block(i - estart)) by {
                    lemma_known(runs, i, k);
                }
                assert forall|i: int| 0 <= i < len implies servable(
                    runs,
                    #[trigger] (page + i),
                    false,
                ) by {
                    assert(known(runs, page + i) == Some(ext.block(page + i - estart)));
                }
                lemma_served_run(runs, page as int, end - page, len as int, false);
            }
            page = page + len;
        }
        true
    }
}

/// Pushing what one run holds of the range extends what was pushed before by those pages.
proof fn lemma_emit_piece(
    runs: Seq<(u64, Extent)>,
    before: Seq<DevicePage>,
    start: int,
    done: int,
    nr: int,
    create: bool,
    k: int,
    item: DevicePage,
)
    requires
        ordered(runs),
        0 <= done < nr <= u32::MAX,
        0 <= k < runs.len(),
        covered_by(runs[k], start + done),
        item.pages() > 0,
        done + item.pages() <= nr,
        start + done + item.pages() <= runs[k].0 + runs[k].1.len,
        item == (match runs[k].1.pblock {
            Some(b) => DevicePage::Run(
                (b + (start + done - runs[k].0)) as u64,
                item.pages() as u32,
            ),
            None => DevicePage::Hole(item.pages() as u32),
        }),
        create ==> runs[k].1.pblock is Some,
        known(runs, start) matches Some(block) ==> device_page::room_behind(before, block, nr),
        forall|i: int| start <= i < start + done ==> (#[trigger] known(runs, i)) is Some,
    ensures
        ({
            let out = device_page::push_all(before, known_blocks(runs, start, done));
            &&& device_page::pushable(out, item)
            &&& device_page::pushed(out, item) == device_page::push_all(
                before,
                known_blocks(runs, start, done + item.pages()),
            )
        }),
        served(runs, start + done, nr - done, create) == item.pages() + served(
            runs,
            start + done + item.pages(),
            nr - done - item.pages(),
            create,
        ),
        forall|i: int| start <= i < start + done + item.pages() ==> (#[trigger] known(runs, i)) is Some,
{
    let page = start + done;
    let len = item.pages() as int;
    let run = runs[k];
    assert(run_wf(run));
    assert forall|i: int| page <= i < page + len implies (#[trigger] known(runs, i)) == Some(
        run.1.block(i - run.0),
    ) by {
        lemma_known(runs, i, k);
    }
    assert forall|i: int| 0 <= i < len implies servable(runs, #[trigger] (page + i), create) by {
        assert(known(runs, page + i) == Some(run.1.block(page + i - run.0)));
    }
    lemma_served_run(runs, page, nr - done, len, create);
    let blocks = known_blocks(runs, start, done);
    let out = device_page::push_all(before, blocks);
    assert(item.blocks() =~= known_blocks(runs, page, len));
    assert(known_blocks(runs, start, done + len) =~= blocks + item.blocks());
    lemma_push_known(runs, before, start, done, nr);
    device_page::lemma_push_run(out, item);
    device_page::lemma_push_all_concat(before, blocks, item.blocks());
}

/// Behind the known pages that were pushed there is room for the rest of the range.
proof fn lemma_push_known(
    runs: Seq<(u64, Extent)>,
    before: Seq<DevicePage>,
    start: int,
    done: int,
    nr: int,
)
    requires
        ordered(runs),
        0 <= done < nr <= u32::MAX,
        forall|i: int| start <= i <= start + done ==> (#[trigger] known(runs, i)) is Some,
        device_page::room_behind(before, known(runs, start).unwrap(), nr),
    ensures
        device_page::room_behind(
            device_page::push_all(before, known_blocks(runs, start, done)),
            known(runs, start + done).unwrap(),
            nr - done,
        ),
{
    if done > 0 {
        let blocks = known_blocks(runs, start, done);
        assert forall|i: int| 0 <= i < blocks.len() implies ((#[trigger] blocks[i]) matches Some(
            b,
        ) ==> 0 <= b < u64::MAX) by {
            lemma_known_block(runs, start + i);
        }
        lemma_known_block(runs, start);
        assert(blocks[0] == known(runs, start + 0).unwrap());
        device_page::lemma_push_all_backing(before, blocks);
    } else {
        assert(known_blocks(runs, start, done) =~= Seq::empty());
    }
}

/// A block that is known has a number.
pub proof fn lemma_known_block(runs: Seq<(u64, Extent)>, page: int)
    requires
        ordered(runs),
    ensures
        known(runs, page) matches Some(Some(b)) ==> 0 <= b < u64::MAX,
{
    if known(runs, page) is Some {
        let i = choose|i: int| 0 <= i < runs.len() && covered_by(#[trigger] runs[i], page);
        assert(run_wf(runs[i]));
    }
}

/// What is left of a run once the pages `[start, end)` are forgotten: the part before them and the
/// part behind them.
pub open spec fn trimmed(run: (u64, Extent), start: int, end: int) -> Seq<(u64, Extent)> {
    let rend = run.0 + run.1.len;
    let front = if run.0 < start {
        let stop = if rend < start {
            rend
        } else {
            start
        };
        seq![(run.0, Extent { pblock: run.1.pblock, len: (stop - run.0) as u32 })]
    } else {
        Seq::empty()
    };
    let back = if rend > end {
        let first = if run.0 > end {
            run.0 as int
        } else {
            end
        };
        seq![(first as u64, run.1.skipped(first - run.0))]
    } else {
        Seq::empty()
    };
    front + back
}

/// What is left of runs once the pages `[start, end)` are forgotten.
pub open spec fn punched(runs: Seq<(u64, Extent)>, start: int, end: int) -> Seq<(u64, Extent)>
    decreases runs.len(),
{
    if runs.len() == 0 {
        Seq::empty()
    } else {
        punched(runs.drop_last(), start, end) + trimmed(runs.last(), start, end)
    }
}

/// How many runs start before `page`.
pub open spec fn starting_before(runs: Seq<(u64, Extent)>, page: int) -> int
    decreases runs.len(),
{
    if runs.len() == 0 {
        0
    } else {
        starting_before(runs.drop_last(), page) + if runs.last().0 < page {
            1int
        } else {
            0
        }
    }
}

/// Whether `next` goes on where `run` ends, on pages and on blocks.
pub open spec fn adjoining(run: (u64, Extent), next: (u64, Extent)) -> bool {
    &&& run.0 + run.1.len == next.0
    &&& run.1.continued_by(next.1)
}

/// Whether `next` goes on where `run` ends, and one length holds both.
pub open spec fn joinable(run: (u64, Extent), next: (u64, Extent)) -> bool {
    &&& adjoining(run, next)
    &&& run.1.len + next.1.len <= u32::MAX
}

/// The run made of `run` and the `next` that goes on where it ends.
pub open spec fn join(run: (u64, Extent), next: (u64, Extent)) -> (u64, Extent) {
    (run.0, Extent { pblock: run.1.pblock, len: (run.1.len + next.1.len) as u32 })
}

/// Where a run goes among others: in place of the runs `[lo, hi)`, as `both`.
pub struct Seam {
    /// The first run that is replaced.
    pub lo: int,
    /// The first run behind those that are replaced.
    pub hi: int,
    /// What stands for them.
    pub both: (u64, Extent),
}

/// Where `run` goes among `runs`, which know nothing of its pages: it is joined to the runs on
/// either side where it can be.
pub open spec fn seam(runs: Seq<(u64, Extent)>, run: (u64, Extent)) -> Seam {
    let i = starting_before(runs, run.0 as int);
    let joins_prev = i > 0 && joinable(runs[i - 1], run);
    let first = if joins_prev {
        join(runs[i - 1], run)
    } else {
        run
    };
    let joins_next = i < runs.len() && joinable(first, runs[i]);
    Seam {
        lo: if joins_prev {
            i - 1
        } else {
            i
        },
        hi: if joins_next {
            i + 1
        } else {
            i
        },
        both: if joins_next {
            join(first, runs[i])
        } else {
            first
        },
    }
}

/// `runs` with the seam's run in place of those that it stands for.
pub open spec fn spliced(runs: Seq<(u64, Extent)>, at: Seam) -> Seq<(u64, Extent)> {
    runs.take(at.lo).push(at.both) + runs.skip(at.hi)
}

/// `runs`, which know nothing of the pages of `run`, with `run` in its place.
pub open spec fn grown(runs: Seq<(u64, Extent)>, run: (u64, Extent)) -> Seq<(u64, Extent)> {
    spliced(runs, seam(runs, run))
}

/// The runs that recording an extent starts from: none where they are too many to track already.
pub open spec fn cleared(runs: Seq<(u64, Extent)>) -> Seq<(u64, Extent)> {
    if runs.len() >= MAX_EXTENTS_PER_OBJECT {
        Seq::empty()
    } else {
        runs
    }
}

/// The runs with the pages of `run` known to lie where it says, whatever was known of them before.
pub open spec fn regrown(runs: Seq<(u64, Extent)>, run: (u64, Extent)) -> Seq<(u64, Extent)> {
    grown(punched(cleared(runs), run.0 as int, run.0 + run.1.len), run)
}

/// Whether recording an extent throws everything else away: there are too many runs to track, or
/// there would be.
pub open spec fn overflows(
    runs: Seq<(u64, Extent)>,
    start: u64,
    pblock: Option<u64>,
    len: u32,
) -> bool {
    &&& len > 0
    &&& {
        ||| runs.len() >= MAX_EXTENTS_PER_OBJECT
        ||| regrown(runs, (start, Extent { pblock, len })).len() > MAX_EXTENTS_PER_OBJECT
    }
}

/// The runs once the pages `[start, start + len)` are known to live at `pblock`. Where they would
/// be too many to track, only that extent is known.
pub open spec fn inserted(
    runs: Seq<(u64, Extent)>,
    start: u64,
    pblock: Option<u64>,
    len: u32,
) -> Seq<(u64, Extent)> {
    let run = (start, Extent { pblock, len });
    if len == 0 {
        runs
    } else if regrown(runs, run).len() > MAX_EXTENTS_PER_OBJECT {
        seq![run]
    } else {
        regrown(runs, run)
    }
}

/// Whether no run goes on where the one before it ends.
pub open spec fn coalesced(runs: Seq<(u64, Extent)>) -> bool {
    forall|i: int| 0 < i < runs.len() ==> !adjoining(#[trigger] runs[i - 1], runs[i])
}

proof fn lemma_trimmed(run: (u64, Extent), start: int, end: int)
    requires
        run_wf(run),
        0 <= start <= end <= u64::MAX,
    ensures
        forall|k: int|
            0 <= k < trimmed(run, start, end).len() ==> {
                let piece = #[trigger] trimmed(run, start, end)[k];
                &&& run_wf(piece)
                &&& run.0 <= piece.0
                &&& piece.0 + piece.1.len <= run.0 + run.1.len
                &&& piece.0 + piece.1.len <= start || end <= piece.0
            },
        trimmed(run, start, end).len() == 2 ==> {
            &&& trimmed(run, start, end)[0].0 + trimmed(run, start, end)[0].1.len == start
            &&& trimmed(run, start, end)[1].0 == end
        },
        trimmed(run, start, end).len() <= 2,
        trimmed(run, start, end).len() == 2 <==> run.0 < start && end < run.0 + run.1.len,
        run.0 + run.1.len <= start ==> trimmed(run, start, end) =~= seq![run],
        run.0 >= end ==> trimmed(run, start, end) =~= seq![run],
        forall|page: int|
            covered_by(run, page) && !(start <= page < end) ==> exists|k: int|
                0 <= k < trimmed(run, start, end).len() && #[trigger] covered_by(
                    trimmed(run, start, end)[k],
                    page,
                ),
        forall|k: int, page: int|
            0 <= k < trimmed(run, start, end).len() && #[trigger] covered_by(
                trimmed(run, start, end)[k],
                page,
            ) ==> {
                &&& covered_by(run, page)
                &&& !(start <= page < end)
                &&& trimmed(run, start, end)[k].1.block(page - trimmed(run, start, end)[k].0)
                    == run.1.block(page - run.0)
            },
{
    let t = trimmed(run, start, end);
    assert forall|page: int| covered_by(run, page) && !(start <= page < end) implies exists|k: int|
        0 <= k < t.len() && #[trigger] covered_by(t[k], page) by {
        if page < start {
            assert(covered_by(t[0], page));
        } else {
            assert(covered_by(t[t.len() - 1], page));
        }
    }
}

proof fn lemma_punched_bound(runs: Seq<(u64, Extent)>, start: int, end: int, bound: int)
    requires
        ordered(runs),
        0 <= start <= end <= u64::MAX,
        forall|i: int| 0 <= i < runs.len() ==> (#[trigger] runs[i]).0 + runs[i].1.len <= bound,
    ensures
        forall|k: int|
            0 <= k < punched(runs, start, end).len() ==> (#[trigger] punched(
                runs,
                start,
                end,
            )[k]).0 + punched(runs, start, end)[k].1.len <= bound,
    decreases runs.len(),
{
    if runs.len() > 0 {
        lemma_punched_bound(runs.drop_last(), start, end, bound);
        assert(run_wf(runs.last()));
        lemma_trimmed(runs.last(), start, end);
        let p = punched(runs.drop_last(), start, end);
        let t = trimmed(runs.last(), start, end);
        assert forall|k: int| 0 <= k < (p + t).len() implies (#[trigger] (p + t)[k]).0 + (p
            + t)[k].1.len <= bound by {
            if k >= p.len() {
                assert((p + t)[k] == t[k - p.len()]);
            }
        }
    }
}

/// Forgetting pages keeps runs in order, leaves none that touches the forgotten pages, and splits
/// at most one run in two.
pub proof fn lemma_punched(runs: Seq<(u64, Extent)>, start: int, end: int)
    requires
        ordered(runs),
        0 <= start <= end <= u64::MAX,
    ensures
        ordered(punched(runs, start, end)),
        forall|k: int|
            0 <= k < punched(runs, start, end).len() ==> {
                let piece = #[trigger] punched(runs, start, end)[k];
                piece.0 + piece.1.len <= start || end <= piece.0
            },
        (forall|i: int| 0 <= i < runs.len() ==> (#[trigger] runs[i]).0 + runs[i].1.len <= start)
            ==> punched(runs, start, end) == runs,
        punched(runs, start, end).len() <= runs.len() + 1,
        (forall|i: int|
            0 <= i < runs.len() ==> !((#[trigger] runs[i]).0 < start && end < runs[i].0
                + runs[i].1.len)) ==> punched(runs, start, end).len() <= runs.len(),
    decreases runs.len(),
{
    if runs.len() > 0 {
        let front = runs.drop_last();
        let last = runs.last();
        assert(run_wf(last));
        lemma_punched(front, start, end);
        lemma_trimmed(last, start, end);
        assert forall|i: int| 0 <= i < front.len() implies (#[trigger] front[i]).0 + front[i].1.len
            <= last.0 by {
            assert(runs[i].0 + runs[i].1.len <= runs[runs.len() - 1].0);
        }
        lemma_punched_bound(front, start, end, last.0 as int);
        let p = punched(front, start, end);
        let t = trimmed(last, start, end);
        assert forall|k: int| 0 <= k < (p + t).len() implies run_wf(#[trigger] (p + t)[k]) && ((p
            + t)[k].0 + (p + t)[k].1.len <= start || end <= (p + t)[k].0) by {
            if k >= p.len() {
                assert((p + t)[k] == t[k - p.len()]);
            }
        }
        assert forall|i: int, j: int| 0 <= i < j < (p + t).len() implies (#[trigger] (p + t)[i]).0
            + (p + t)[i].1.len <= (#[trigger] (p + t)[j]).0 by {
            if j < p.len() {
            } else if i < p.len() {
                assert((p + t)[j] == t[j - p.len()]);
            } else {
                assert((p + t)[i] == t[i - p.len()]);
                assert((p + t)[j] == t[j - p.len()]);
            }
        }
        if forall|i: int| 0 <= i < runs.len() ==> (#[trigger] runs[i]).0 + runs[i].1.len <= start {
            assert(runs[runs.len() - 1].0 + runs[runs.len() - 1].1.len <= start);
            assert(front + seq![last] =~= runs);
        }
        if t.len() == 2 {
            assert(p == front);
        }
    }
}

/// Forgetting pages forgets exactly them.
pub proof fn lemma_punched_known(runs: Seq<(u64, Extent)>, start: int, end: int, page: int)
    requires
        ordered(runs),
        0 <= start <= end <= u64::MAX,
    ensures
        known(punched(runs, start, end), page) == if start <= page < end {
            None
        } else {
            known(runs, page)
        },
{
    lemma_punched(runs, start, end);
    let p = punched(runs, start, end);
    if known(p, page) is Some {
        let k = choose|k: int| 0 <= k < p.len() && covered_by(#[trigger] p[k], page);
        let i = lemma_punched_from(runs, start, end, page, k);
        lemma_known(runs, page, i);
        lemma_known(p, page, k);
    }
    if known(runs, page) is Some && !(start <= page < end) {
        let i = choose|i: int| 0 <= i < runs.len() && covered_by(#[trigger] runs[i], page);
        let k = lemma_punched_to(runs, start, end, page, i);
    }
}

proof fn lemma_punched_from(runs: Seq<(u64, Extent)>, start: int, end: int, page: int, k: int) -> (i: int)
    requires
        ordered(runs),
        0 <= start <= end <= u64::MAX,
        0 <= k < punched(runs, start, end).len(),
        covered_by(punched(runs, start, end)[k], page),
    ensures
        0 <= i < runs.len(),
        covered_by(runs[i], page),
        !(start <= page < end),
        runs[i].1.block(page - runs[i].0) == punched(runs, start, end)[k].1.block(
            page - punched(runs, start, end)[k].0,
        ),
    decreases runs.len(),
{
    let p = punched(runs.drop_last(), start, end);
    if k < p.len() {
        lemma_punched_from(runs.drop_last(), start, end, page, k)
    } else {
        let t = trimmed(runs.last(), start, end);
        assert(run_wf(runs.last()));
        lemma_trimmed(runs.last(), start, end);
        assert(punched(runs, start, end)[k] == t[k - p.len()]);
        assert(covered_by(t[k - p.len()], page));
        runs.len() - 1
    }
}

proof fn lemma_punched_to(runs: Seq<(u64, Extent)>, start: int, end: int, page: int, i: int) -> (k: int)
    requires
        ordered(runs),
        0 <= start <= end <= u64::MAX,
        0 <= i < runs.len(),
        covered_by(runs[i], page),
        !(start <= page < end),
    ensures
        0 <= k < punched(runs, start, end).len(),
        covered_by(punched(runs, start, end)[k], page),
    decreases runs.len(),
{
    let p = punched(runs.drop_last(), start, end);
    if i < runs.len() - 1 {
        lemma_punched_to(runs.drop_last(), start, end, page, i)
    } else {
        let t = trimmed(runs.last(), start, end);
        assert(run_wf(runs.last()));
        lemma_trimmed(runs.last(), start, end);
        let k = choose|k: int| 0 <= k < t.len() && #[trigger] covered_by(t[k], page);
        assert(punched(runs, start, end)[p.len() + k] == t[k]);
        p.len() + k
    }
}

proof fn lemma_starting_before(runs: Seq<(u64, Extent)>, page: int)
    requires
        ordered(runs),
    ensures
        0 <= starting_before(runs, page) <= runs.len(),
        forall|i: int| 0 <= i < starting_before(runs, page) ==> (#[trigger] runs[i]).0 < page,
        forall|i: int|
            starting_before(runs, page) <= i < runs.len() ==> (#[trigger] runs[i]).0 >= page,
    decreases runs.len(),
{
    if runs.len() > 0 {
        lemma_starting_before(runs.drop_last(), page);
        let front = runs.drop_last();
        assert forall|i: int| 0 <= i < front.len() implies #[trigger] runs[i] == front[i]
            && front[i].0 < runs.last().0 by {
            assert(run_wf(runs[i]));
            assert(runs[i].0 + runs[i].1.len <= runs[runs.len() - 1].0);
        }
        if runs.last().0 < page {
            if starting_before(front, page) < front.len() {
                assert(front[starting_before(front, page)].0 >= page);
                assert(front[starting_before(front, page)].0 < runs.last().0);
            }
        }
    }
}

/// Whether runs know nothing of the pages of `run`.
pub open spec fn clear_of(runs: Seq<(u64, Extent)>, run: (u64, Extent)) -> bool {
    forall|k: int|
        0 <= k < runs.len() ==> (#[trigger] runs[k]).0 + runs[k].1.len <= run.0 || run.0
            + run.1.len <= runs[k].0
}

proof fn lemma_seam(runs: Seq<(u64, Extent)>, run: (u64, Extent))
    requires
        ordered(runs),
        run_wf(run),
        clear_of(runs, run),
    ensures
        ({
            let at = seam(runs, run);
            let i = starting_before(runs, run.0 as int);
            &&& 0 <= at.lo <= i <= at.hi <= runs.len()
            &&& i - 1 <= at.lo
            &&& at.hi <= i + 1
            &&& run_wf(at.both)
            &&& at.lo > 0 ==> runs[at.lo - 1].0 + runs[at.lo - 1].1.len <= at.both.0
            &&& at.hi < runs.len() ==> at.both.0 + at.both.1.len <= runs[at.hi].0
        }),
{
    lemma_starting_before(runs, run.0 as int);
    let i = starting_before(runs, run.0 as int);
    if i > 0 {
        assert(run_wf(runs[i - 1]));
        assert(runs[i - 1].0 < run.0);
        if i > 1 {
            assert(runs[i - 2].0 + runs[i - 2].1.len <= runs[i - 1].0);
        }
    }
    if i < runs.len() {
        assert(run_wf(runs[i]));
        assert(runs[i].0 >= run.0);
        if i + 1 < runs.len() {
            assert(runs[i].0 + runs[i].1.len <= runs[i + 1].0);
        }
    }
}

/// What the seam's run says of a page is what `run` or the runs that it stands for said.
proof fn lemma_seam_pages(runs: Seq<(u64, Extent)>, run: (u64, Extent), page: int)
    requires
        ordered(runs),
        run_wf(run),
        clear_of(runs, run),
    ensures
        ({
            let at = seam(runs, run);
            &&& covered_by(at.both, page) <==> {
                ||| covered_by(run, page)
                ||| exists|j: int| at.lo <= j < at.hi && covered_by(#[trigger] runs[j], page)
            }
            &&& covered_by(run, page) ==> at.both.1.block(page - at.both.0) == run.1.block(
                page - run.0,
            )
            &&& forall|j: int|
                at.lo <= j < at.hi && covered_by(#[trigger] runs[j], page) ==> at.both.1.block(
                    page - at.both.0,
                ) == runs[j].1.block(page - runs[j].0)
        }),
{
    lemma_seam(runs, run);
    let at = seam(runs, run);
    let i = starting_before(runs, run.0 as int);
    if i > 0 {
        assert(run_wf(runs[i - 1]));
    }
    if i < runs.len() {
        assert(run_wf(runs[i]));
    }
    if covered_by(at.both, page) && !covered_by(run, page) {
        if at.lo < i && covered_by(runs[i - 1], page) {
        } else {
            assert(at.hi > i);
            assert(covered_by(runs[i], page));
        }
    }
}

proof fn lemma_spliced(runs: Seq<(u64, Extent)>, at: Seam)
    requires
        ordered(runs),
        0 <= at.lo <= at.hi <= runs.len(),
        run_wf(at.both),
        at.lo > 0 ==> runs[at.lo - 1].0 + runs[at.lo - 1].1.len <= at.both.0,
        at.hi < runs.len() ==> at.both.0 + at.both.1.len <= runs[at.hi].0,
    ensures
        ordered(spliced(runs, at)),
        spliced(runs, at).len() == runs.len() + 1 - (at.hi - at.lo),
        forall|j: int| 0 <= j < at.lo ==> #[trigger] spliced(runs, at)[j] == runs[j],
        spliced(runs, at)[at.lo] == at.both,
        forall|j: int|
            at.lo < j < spliced(runs, at).len() ==> #[trigger] spliced(runs, at)[j] == runs[j
                - at.lo - 1 + at.hi],
{
    let g = spliced(runs, at);
    let shift = at.hi - at.lo - 1;
    assert forall|j: int| 0 <= j < g.len() implies run_wf(#[trigger] g[j]) by {
        if j < at.lo {
            assert(run_wf(runs[j]));
        } else if j > at.lo {
            assert(run_wf(runs[j + shift]));
        }
    }
    assert forall|a: int, b: int| 0 <= a < b < g.len() implies (#[trigger] g[a]).0 + g[a].1.len <= (
    #[trigger] g[b]).0 by {
        if b < at.lo {
            assert(runs[a].0 + runs[a].1.len <= runs[b].0);
        } else if a > at.lo {
            assert(runs[a + shift].0 + runs[a + shift].1.len <= runs[b + shift].0);
        } else {
            if a < at.lo && a < at.lo - 1 {
                assert(run_wf(runs[at.lo - 1]));
                assert(runs[a].0 + runs[a].1.len <= runs[at.lo - 1].0);
            }
            if b > at.lo && b + shift > at.hi {
                assert(run_wf(runs[at.hi]));
                assert(runs[at.hi].0 + runs[at.hi].1.len <= runs[b + shift].0);
            }
        }
    }
}

proof fn lemma_spliced_known(runs: Seq<(u64, Extent)>, at: Seam, page: int)
    requires
        ordered(runs),
        0 <= at.lo <= at.hi <= runs.len(),
        run_wf(at.both),
        at.lo > 0 ==> runs[at.lo - 1].0 + runs[at.lo - 1].1.len <= at.both.0,
        at.hi < runs.len() ==> at.both.0 + at.both.1.len <= runs[at.hi].0,
        forall|j: int|
            at.lo <= j < at.hi && covered_by(#[trigger] runs[j], page) ==> covered_by(
                at.both,
                page,
            ),
    ensures
        known(spliced(runs, at), page) == if covered_by(at.both, page) {
            Some(at.both.1.block(page - at.both.0))
        } else {
            known(runs, page)
        },
{
    lemma_spliced(runs, at);
    let g = spliced(runs, at);
    let shift = at.hi - at.lo - 1;
    if covered_by(at.both, page) {
        lemma_known(g, page, at.lo);
    } else {
        if known(runs, page) is Some {
            let m = choose|m: int| 0 <= m < runs.len() && covered_by(#[trigger] runs[m], page);
            lemma_known(runs, page, m);
            if m < at.lo {
                assert(g[m] == runs[m]);
                lemma_known(g, page, m);
            } else {
                assert(m >= at.hi);
                assert(g[m - shift] == runs[m]);
                lemma_known(g, page, m - shift);
            }
        } else if known(g, page) is Some {
            let m = choose|m: int| 0 <= m < g.len() && covered_by(#[trigger] g[m], page);
            if m < at.lo {
                assert(covered_by(runs[m], page));
            } else {
                assert(covered_by(runs[m + shift], page));
            }
        }
    }
}

/// A run that takes its place among others keeps them in order, adds at most one, and leaves known
/// what was known.
pub proof fn lemma_grown(runs: Seq<(u64, Extent)>, run: (u64, Extent), page: int)
    requires
        ordered(runs),
        run_wf(run),
        clear_of(runs, run),
    ensures
        ordered(grown(runs, run)),
        grown(runs, run).len() <= runs.len() + 1,
        known(grown(runs, run), page) == if covered_by(run, page) {
            Some(run.1.block(page - run.0))
        } else {
            known(runs, page)
        },
{
    let at = seam(runs, run);
    lemma_seam(runs, run);
    lemma_seam_pages(runs, run, page);
    lemma_spliced(runs, at);
    lemma_spliced_known(runs, at, page);
    if covered_by(at.both, page) && !covered_by(run, page) {
        let j = choose|j: int| at.lo <= j < at.hi && covered_by(#[trigger] runs[j], page);
        lemma_known(runs, page, j);
    }
}

/// Whether one length holds `run` together with the runs that it adjoins.
pub open spec fn lengths_fit(runs: Seq<(u64, Extent)>, run: (u64, Extent)) -> bool {
    let i = starting_before(runs, run.0 as int);
    let front = if i > 0 && adjoining(runs[i - 1], run) {
        runs[i - 1].1.len as int
    } else {
        0
    };
    let back = if i < runs.len() && adjoining(run, runs[i]) {
        runs[i].1.len as int
    } else {
        0
    };
    front + run.1.len + back <= u32::MAX
}

proof fn lemma_grown_coalesced(runs: Seq<(u64, Extent)>, run: (u64, Extent))
    requires
        ordered(runs),
        run_wf(run),
        clear_of(runs, run),
        coalesced(runs),
        lengths_fit(runs, run),
    ensures
        coalesced(grown(runs, run)),
{
    let at = seam(runs, run);
    let i = starting_before(runs, run.0 as int);
    lemma_seam(runs, run);
    lemma_spliced(runs, at);
    let g = grown(runs, run);
    let shift = at.hi - at.lo - 1;
    if at.lo > 0 {
        assert(!adjoining(runs[at.lo - 1], at.both)) by {
            if at.lo < i {
                assert(!adjoining(runs[i - 2], runs[i - 1]));
            }
        }
    }
    if at.hi < runs.len() {
        assert(!adjoining(at.both, runs[at.hi])) by {
            if at.hi > i {
                assert(!adjoining(runs[(i + 1) - 1], runs[i + 1]));
            }
        }
    }
    assert forall|j: int| 0 < j < g.len() implies !adjoining(#[trigger] g[j - 1], g[j]) by {
        if j < at.lo {
            assert(!adjoining(runs[j - 1], runs[j]));
        } else if j > at.lo + 1 {
            let m = j + shift;
            assert(!adjoining(runs[m - 1], runs[m]));
        }
    }
}

proof fn lemma_punched_coalesced(runs: Seq<(u64, Extent)>, start: int, end: int)
    requires
        ordered(runs),
        coalesced(runs),
        0 <= start < end <= u64::MAX,
    ensures
        coalesced(punched(runs, start, end)),
        punched(runs, start, end).len() > 0 ==> {
            let piece = punched(runs, start, end).last();
            let last = runs.last();
            ||| piece.0 + piece.1.len < last.0 + last.1.len
            ||| piece.0 + piece.1.len == last.0 + last.1.len && piece.1.block(piece.1.len as int)
                == last.1.block(last.1.len as int)
        },
    decreases runs.len(),
{
    if runs.len() > 0 {
        let front = runs.drop_last();
        let last = runs.last();
        assert(run_wf(last));
        assert forall|j: int| 0 < j < front.len() implies !adjoining(
            #[trigger] front[j - 1],
            front[j],
        ) by {
            assert(!adjoining(runs[j - 1], runs[j]));
        }
        lemma_punched_coalesced(front, start, end);
        lemma_punched(runs, start, end);
        lemma_trimmed(last, start, end);
        let p = punched(front, start, end);
        let t = trimmed(last, start, end);
        let whole = punched(runs, start, end);
        assert(whole == p + t);
        if front.len() > 0 {
            assert(runs[front.len() - 1].0 + runs[front.len() - 1].1.len <= last.0);
        }
        if t.len() == 0 && p.len() > 0 {
            assert(whole.last() == p.last());
        }
        assert forall|j: int| 0 < j < whole.len() implies !adjoining(
            #[trigger] whole[j - 1],
            whole[j],
        ) by {
            if j < p.len() {
                assert(!adjoining(p[j - 1], p[j]));
            } else if j > p.len() {
                assert(whole[j - 1] == t[0]);
                assert(whole[j] == t[1]);
            } else {
                assert(whole[j] == t[0]);
                assert(whole[j - 1] == p.last());
                assert(run_wf(front.last())) by {
                    assert(run_wf(runs[front.len() - 1]));
                }
                assert(!adjoining(runs[runs.len() - 2], runs[runs.len() - 1]));
            }
        }
    }
}

proof fn lemma_cleared(runs: Seq<(u64, Extent)>, run: (u64, Extent))
    requires
        ordered(runs),
        run.0 + run.1.len <= u64::MAX,
    ensures
        ordered(cleared(runs)),
        ordered(punched(cleared(runs), run.0 as int, run.0 + run.1.len)),
        clear_of(punched(cleared(runs), run.0 as int, run.0 + run.1.len), run),
{
    lemma_punched(cleared(runs), run.0 as int, run.0 + run.1.len);
}

/// Recording an extent makes its pages known, whatever was known of them before, and changes nothing
/// that is known of other pages -- but that everything else is forgotten where the runs were, or
/// would be, too many to track.
pub proof fn lemma_inserted(
    runs: Seq<(u64, Extent)>,
    start: u64,
    pblock: Option<u64>,
    len: u32,
    page: int,
)
    requires
        ordered(runs),
        start + len <= u64::MAX,
        (Extent { pblock, len }).numbered(),
    ensures
        ordered(inserted(runs, start, pblock, len)),
        known(inserted(runs, start, pblock, len), page) == if start <= page < start + len {
            Some((Extent { pblock, len }).block(page - start))
        } else if overflows(runs, start, pblock, len) {
            None
        } else {
            known(runs, page)
        },
{
    if len > 0 {
        let base = cleared(runs);
        let run = (start, Extent { pblock, len });
        lemma_cleared(runs, run);
        lemma_punched_known(base, start as int, start + len, page);
        lemma_grown(punched(base, start as int, start + len), run, page);
        if regrown(runs, run).len() > MAX_EXTENTS_PER_OBJECT {
            let alone = seq![run];
            assert(run_wf(alone[0]));
            if covered_by(run, page) {
                lemma_known(alone, page, 0);
            }
        }
    }
}

/// However a file is fragmented, its map stays bounded: recording one extent more starts over with
/// that extent rather than grow the map past the cap.
pub proof fn lemma_fragmentation_bound(
    runs: Seq<(u64, Extent)>,
    start: u64,
    pblock: Option<u64>,
    len: u32,
)
    requires
        len == 0 ==> runs.len() <= MAX_EXTENTS_PER_OBJECT,
    ensures
        inserted(runs, start, pblock, len).len() <= MAX_EXTENTS_PER_OBJECT,
{
}

/// Where recording an extent throws everything else away, that extent is all that is known.
pub proof fn lemma_overflow_starts_over(
    runs: Seq<(u64, Extent)>,
    start: u64,
    pblock: Option<u64>,
    len: u32,
)
    requires
        overflows(runs, start, pblock, len),
    ensures
        inserted(runs, start, pblock, len) == seq![(start, Extent { pblock, len })],
{
    let run = (start, Extent { pblock, len });
    if runs.len() >= MAX_EXTENTS_PER_OBJECT {
        assert(regrown(runs, run) =~= seq![run]);
    }
}

/// Entries stay coalesced: recording an extent leaves no run that goes on where the one before it
/// ends, as long as one length holds the joined runs.
pub proof fn lemma_inserted_coalesced(
    runs: Seq<(u64, Extent)>,
    start: u64,
    pblock: Option<u64>,
    len: u32,
)
    requires
        ordered(runs),
        coalesced(runs),
        start + len <= u64::MAX,
        (Extent { pblock, len }).numbered(),
        len > 0,
        lengths_fit(
            punched(cleared(runs), start as int, start + len),
            (start, Extent { pblock, len }),
        ),
    ensures
        coalesced(inserted(runs, start, pblock, len)),
{
    let base = cleared(runs);
    let run = (start, Extent { pblock, len });
    lemma_cleared(runs, run);
    lemma_punched_coalesced(base, start as int, start + len);
    lemma_grown_coalesced(punched(base, start as int, start + len), run);
}

/// What `covers` promises is what `emit` serves: for reading, a range that is covered is served
/// whole, and one that is not is not.
pub proof fn lemma_covers_agrees_with_emit(runs: Seq<(u64, Extent)>, start: int, nr: int)
    requires
        nr >= 0,
    ensures
        served(runs, start, nr, false) == nr <==> forall|page: int|
            start <= page < start + nr ==> (#[trigger] known(runs, page)) is Some,
{
    lemma_served(runs, start, nr, false);
    if served(runs, start, nr, false) == nr {
        assert forall|page: int| start <= page < start + nr implies (#[trigger] known(
            runs,
            page,
        )) is Some by {
            assert(servable(runs, start + (page - start), false));
        }
    }
}

/// A hole serves reads but not allocation: allocating stops at or before the first hole, and
/// whatever is served for allocation is served for reading too.
pub proof fn lemma_holes_are_not_allocated(runs: Seq<(u64, Extent)>, start: int, nr: int)
    requires
        nr >= 0,
    ensures
        served(runs, start, nr, true) <= served(runs, start, nr, false),
        forall|i: int|
            0 <= i < served(runs, start, nr, true) ==> (#[trigger] known_blocks(
                runs,
                start,
                served(runs, start, nr, true),
            )[i]) is Some,
    decreases nr,
{
    lemma_served(runs, start, nr, true);
    lemma_served(runs, start, nr, false);
    if nr > 0 && servable(runs, start, true) {
        lemma_holes_are_not_allocated(runs, start + 1, nr - 1);
    }
    assert forall|i: int| 0 <= i < served(runs, start, nr, true) implies (#[trigger] known_blocks(
        runs,
        start,
        served(runs, start, nr, true),
    )[i]) is Some by {
        assert(servable(runs, start + i, true));
    }
}

impl ExtentMap {
    /// Drop everything covering `[start, end)`, trimming entries that straddle either edge.
    pub fn punch(&mut self, start: u64, end: u64)
        requires
            old(self).wf(),
            start <= end,
        ensures
            final(self).wf(),
            final(self).entries() == punched(old(self).entries(), start as int, end as int),
            final(self).learned_under() == old(self).learned_under(),
    {
        let ghost runs = self.entries();
        let mut kept: Vec<(u64, Extent)> = Vec::new();
        let mut i: usize = 0;
        while i < self.runs.len()
            invariant
                i <= self.runs.len(),
                runs == self.entries(),
                ordered(runs),
                start <= end,
                kept@ == punched(runs.take(i as int), start as int, end as int),
                self.learned_under() == old(self).learned_under(),
            decreases self.runs.len() - i,
        {
            let (estart, ext) = self.runs[i];
            assert(run_wf(runs[i as int]));
            let eend: u64 = estart + ext.len as u64;
            let ghost so_far = kept@;
            if estart < start {
                let stop: u64 = if eend < start {
                    eend
                } else {
                    start
                };
                kept.push((estart, Extent { pblock: ext.pblock, len: (stop - estart) as u32 }));
            }
            if eend > end {
                let first: u64 = if estart > end {
                    estart
                } else {
                    end
                };
                let pblock = match ext.pblock {
                    Some(p) => Some(p + (first - estart)),
                    None => None,
                };
                kept.push((first, Extent { pblock, len: (eend - first) as u32 }));
            }
            proof {
                assert(runs.take(i + 1).drop_last() =~= runs.take(i as int));
                assert(kept@ =~= so_far + trimmed(runs[i as int], start as int, end as int));
            }
            i = i + 1;
        }
        proof {
            assert(runs.take(i as int) =~= runs);
            lemma_punched(runs, start as int, end as int);
        }
        self.runs = kept;
    }

    /// Record that object pages `[start, start + len)` live at `pblock` (or are a hole).
    ///
    /// Returns whether the map was, or would be, too fragmented to track, so that everything else
    /// known about the object was thrown away.
    pub fn insert(&mut self, start: u64, pblock: Option<u64>, len: u32) -> (overflowed: bool)
        requires
            old(self).wf(),
            start + len <= u64::MAX,
            (Extent { pblock, len }).numbered(),
        ensures
            final(self).wf(),
            final(self).entries() == inserted(old(self).entries(), start, pblock, len),
            final(self).learned_under() == old(self).learned_under(),
            overflowed == overflows(old(self).entries(), start, pblock, len),
            len > 0 ==> final(self).entries().len() <= MAX_EXTENTS_PER_OBJECT,
    {
        proof {
            lemma_inserted(self.entries(), start, pblock, len, 0);
        }
        if len == 0 {
            return false;
        }
        let ghost before = self.entries();
        let mut overflowed = self.runs.len() >= MAX_EXTENTS_PER_OBJECT;
        if overflowed {
            self.runs.clear();
            assert(self.entries() =~= Seq::empty());
        }
        proof {
            lemma_cleared(before, (start, Extent { pblock, len }));
        }
        let end: u64 = start + len as u64;
        self.punch(start, end);

        let ghost runs = self.entries();
        let ghost run = (start, Extent { pblock, len });
        assert(clear_of(runs, run));
        let mut i: usize = 0;
        while i < self.runs.len() && self.runs[i].0 < start
            invariant
                i <= self.runs.len(),
                runs == self.entries(),
                ordered(runs),
                forall|j: int| 0 <= j < i ==> (#[trigger] runs[j]).0 < start,
            decreases self.runs.len() - i,
        {
            i = i + 1;
        }
        proof {
            lemma_starting_before(runs, start as int);
            lemma_seam(runs, run);
            if i < starting_before(runs, start as int) {
                assert(runs[i as int].0 < start);
            }
            if starting_before(runs, start as int) < i {
                assert(runs[starting_before(runs, start as int)].0 >= start);
            }
        }

        let mut new_start: u64 = start;
        let mut new = Extent { pblock, len };
        let mut lo: usize = i;
        if i > 0 {
            let (pstart, prev) = self.runs[i - 1];
            assert(run_wf(runs[i - 1]));
            if pstart + prev.len as u64 == start && prev.continues(&new) {
                if let Some(joined) = prev.len.checked_add(new.len) {
                    lo = i - 1;
                    new_start = pstart;
                    new = Extent { pblock: prev.pblock, len: joined };
                }
            }
        }
        let mut hi: usize = i;
        if i < self.runs.len() {
            let (nstart, next) = self.runs[i];
            assert(run_wf(runs[i as int]));
            if nstart == end && new.continues(&next) {
                if let Some(joined) = new.len.checked_add(next.len) {
                    hi = i + 1;
                    new = Extent { pblock: new.pblock, len: joined };
                }
            }
        }
        assert(seam(runs, run) == (Seam { lo: lo as int, hi: hi as int, both: (new_start, new) }));
        let mut tail = self.runs.split_off(hi);
        self.runs.truncate(lo);
        self.runs.push((new_start, new));
        self.runs.append(&mut tail);
        assert(self.entries() =~= grown(runs, run));
        assert(self.entries() == regrown(before, run));
        if self.runs.len() > MAX_EXTENTS_PER_OBJECT {
            self.runs.clear();
            self.runs.push((start, Extent { pblock, len }));
            assert(self.entries() =~= seq![run]);
            overflowed = true;
        }
        overflowed
    }
}

/// The pages of an extent lie on consecutive blocks, or all on none; and one extent goes on in
/// another where the block behind its last page is the other's first.
pub proof fn lemma_extent_blocks(a: Extent, b: Extent, i: int)
    ensures
        a.pblock matches Some(first) ==> a.block(i) == Some(first + i),
        a.pblock is None ==> a.block(i) is None,
        a.continued_by(b) <==> a.block(a.len as int) == b.block(0),
{
}

/// Every page that is served is known, and has a block where blocks are asked for. The page behind
/// the last one served is not known, or is a hole where blocks are asked for.
pub proof fn lemma_served_is_known(runs: Seq<(u64, Extent)>, start: int, nr: int, create: bool)
    requires
        nr >= 0,
    ensures
        ({
            let n = served(runs, start, nr, create);
            &&& 0 <= n <= nr
            &&& forall|page: int|
                start <= page < start + n ==> (#[trigger] known(runs, page)) is Some && (create
                    ==> known(runs, page) != Some(None::<int>))
            &&& n < nr ==> known(runs, start + n) is None || create && known(runs, start + n)
                == Some(None::<int>)
            &&& known_blocks(runs, start, n).len() == n
            &&& forall|page: int|
                start <= page < start + n ==> #[trigger] known(runs, page) == Some(
                    known_blocks(runs, start, n)[page - start],
                )
        }),
{
    let n = served(runs, start, nr, create);
    lemma_served(runs, start, nr, create);
    assert forall|page: int| start <= page < start + n implies (#[trigger] known(runs, page))
        is Some && (create ==> known(runs, page) != Some(None::<int>)) by {
        assert(servable(runs, start + (page - start), create));
    }
}

/// Nothing is thrown away without need. Recording no pages changes nothing; with 64 runs recording
/// starts over; with 63 it does so only where the new extent splits a run in two; and with fewer it
/// never does.
pub proof fn lemma_overflow_needs_a_full_map(
    runs: Seq<(u64, Extent)>,
    start: u64,
    pblock: Option<u64>,
    len: u32,
)
    requires
        ordered(runs),
        start + len <= u64::MAX,
        (Extent { pblock, len }).numbered(),
    ensures
        len == 0 ==> inserted(runs, start, pblock, len) == runs && !overflows(
            runs,
            start,
            pblock,
            len,
        ),
        len > 0 && runs.len() >= 64 ==> overflows(runs, start, pblock, len),
        overflows(runs, start, pblock, len) ==> runs.len() >= 63,
        overflows(runs, start, pblock, len) && runs.len() < 64 ==> exists|i: int|
            0 <= i < runs.len() && (#[trigger] runs[i]).0 < start && start + len < runs[i].0
                + runs[i].1.len,
        inserted(runs, start, pblock, len).len() <= if runs.len() > 64 {
            runs.len()
        } else {
            64
        },
{
    if len > 0 && runs.len() < 64 {
        let run = (start, Extent { pblock, len });
        lemma_cleared(runs, run);
        lemma_punched(cleared(runs), start as int, start + len);
        lemma_grown(punched(cleared(runs), start as int, start + len), run, 0);
    }
}

/// What is known of a page is what the one run says that covers it, and nothing where none does.
pub proof fn lemma_known_comes_from_a_run(runs: Seq<(u64, Extent)>, page: int)
    requires
        ordered(runs),
    ensures
        forall|i: int|
            0 <= i < runs.len() && (#[trigger] runs[i]).0 <= page < runs[i].0 + runs[i].1.len
                ==> known(runs, page) == Some(
                match runs[i].1.pblock {
                    Some(first) => Some(first + (page - runs[i].0)),
                    None => None::<int>,
                },
            ),
        (forall|i: int|
            0 <= i < runs.len() ==> !((#[trigger] runs[i]).0 <= page < runs[i].0 + runs[i].1.len))
            ==> known(runs, page) is None,
{
    assert forall|i: int|
        0 <= i < runs.len() && (#[trigger] runs[i]).0 <= page < runs[i].0
            + runs[i].1.len implies known(runs, page) == Some(
        match runs[i].1.pblock {
            Some(first) => Some(first + (page - runs[i].0)),
            None => None::<int>,
        },
    ) by {
        lemma_known(runs, page, i);
    }
}

} // verus!
