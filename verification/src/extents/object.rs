//! What is known of one object, and for how long it holds.

use vstd::prelude::*;

use crate::extents::extent_map;
use crate::extents::extent_map::Extent;
use crate::extents::extent_map::ExtentMap;
use crate::paged_object_store::device_page;
use crate::paged_object_store::device_page::DevicePage;
use crate::paged_object_store::MAYHEAP_LEN;

verus! {

/// Whether a learned extent has pages and blocks with numbers.
pub open spec fn learnable(extent: (u64, Option<u64>, u32)) -> bool {
    &&& extent.0 + extent.2 <= u64::MAX
    &&& (Extent { pblock: extent.1, len: extent.2 }).numbered()
}

/// Whether every learned extent has pages and blocks with numbers.
pub open spec fn all_learnable(learned: Seq<(u64, Option<u64>, u32)>) -> bool {
    forall|i: int| 0 <= i < learned.len() ==> learnable(#[trigger] learned[i])
}

/// Runs once the learned extents are recorded, in order.
pub open spec fn inserted_all(
    runs: Seq<(u64, Extent)>,
    learned: Seq<(u64, Option<u64>, u32)>,
) -> Seq<(u64, Extent)>
    decreases learned.len(),
{
    if learned.len() == 0 {
        runs
    } else {
        let last = learned.last();
        extent_map::inserted(inserted_all(runs, learned.drop_last()), last.0, last.1, last.2)
    }
}

/// How often recording the learned extents throws everything away.
pub open spec fn overflow_count(
    runs: Seq<(u64, Extent)>,
    learned: Seq<(u64, Option<u64>, u32)>,
) -> int
    decreases learned.len(),
{
    if learned.len() == 0 {
        0
    } else {
        overflow_count(runs, learned.drop_last()) + if extent_map::overflows(
            inserted_all(runs, learned.drop_last()),
            learned.last().0,
            learned.last().1,
            learned.last().2,
        ) {
            1int
        } else {
            0
        }
    }
}

/// One object's tracked extents.
///
/// Invalidation is a generation counter: extents learned under another generation than the
/// present one are not known any more.
#[derive(Debug)]
pub struct ObjectExtents {
    generation: u64,
    map: ExtentMap,
}

impl ObjectExtents {
    /// The present generation.
    pub closed spec fn current(self) -> u64 {
        self.generation
    }

    /// The generation that the extents were learned under.
    pub closed spec fn learned_under(self) -> u64 {
        self.map.learned_under()
    }

    /// How many invalidations ago the extents were learned, as far as the generations can tell.
    pub open spec fn age(self) -> int {
        (self.current() - self.learned_under()) % (u64::MAX + 1)
    }

    /// The extents that were learned, under whatever generation.
    pub closed spec fn recorded(self) -> Seq<(u64, Extent)> {
        self.map.entries()
    }

    /// What recording `learned`, by a walk that started at generation `generation`, leaves of this
    /// object in `after`: the object as it is, where nothing was learned or it was invalidated
    /// since.
    pub open spec fn committed_to(
        self,
        after: ObjectExtents,
        generation: u64,
        learned: Seq<(u64, Option<u64>, u32)>,
    ) -> bool {
        if learned.len() == 0 || generation != self.current() {
            after == self
        } else {
            &&& after.current() == self.current()
            &&& after.learned_under() == generation
            &&& after.runs() == inserted_all(self.runs(), learned)
        }
    }

    /// How often recording `learned`, by a walk that started at generation `generation`, throws
    /// everything away.
    pub open spec fn clears(self, generation: u64, learned: Seq<(u64, Option<u64>, u32)>) -> int {
        if learned.len() == 0 || generation != self.current() {
            0
        } else {
            overflow_count(self.runs(), learned)
        }
    }

    /// The extents that are known: those learned under the present generation.
    pub open spec fn runs(self) -> Seq<(u64, Extent)> {
        if self.learned_under() == self.current() {
            self.recorded()
        } else {
            Seq::empty()
        }
    }

    /// Whether `after` is this object invalidated once.
    pub open spec fn bumped_to(self, after: ObjectExtents) -> bool {
        &&& after.current() == if self.current() == u64::MAX {
            0
        } else {
            self.current() + 1
        }
        &&& after.learned_under() == self.learned_under()
        &&& after.recorded() == self.recorded()
    }

    /// Whether the extents stand in order and share no page, and are no more than may be held.
    pub open spec fn wf(self) -> bool {
        &&& extent_map::ordered(self.recorded())
        &&& self.recorded().len() <= extent_map::MAX_EXTENTS_PER_OBJECT
    }

    /// An object of which nothing is known.
    pub fn new() -> (object: Self)
        ensures
            object.wf(),
            object.runs() == Seq::<(u64, Extent)>::empty(),
            object.current() == 0,
            object.learned_under() == 0,
    {
        ObjectExtents { generation: 0, map: ExtentMap::new(0) }
    }

    /// Snapshot the generation before walking the fs, and hand it back to `commit`.
    pub fn generation(&self) -> (generation: u64)
        ensures
            generation == self.current(),
    {
        self.generation
    }

    /// Forget everything known about this object.
    ///
    /// Must be called *after* the mutation it describes. Bumping first is not enough: a filler
    /// could snapshot the new generation, win the fs lock ahead of the mutation, and commit
    /// pre-mutation extents that then look current.
    pub fn invalidate(&mut self)
        requires
            old(self).wf(),
        ensures
            final(self).wf(),
            old(self).bumped_to(*final(self)),
    {
        self.generation = self.generation.wrapping_add(1);
    }

    /// Serve what is known of `[start, start + nr)` into `out`.
    ///
    /// Returns the pages served and whether this object had *any* valid extents on entry. The
    /// second is what separates "the workload never revisits this object" from "it revisits it but
    /// always at a fresh range" -- and both from a cache that is simply not committing.
    pub fn emit(
        &self,
        start: u64,
        nr: u32,
        create: bool,
        out: &mut mayheap::Vec<DevicePage, MAYHEAP_LEN>,
    ) -> (res: (u32, bool))
        requires
            self.wf(),
            self.learned_under() == self.current() ==> start + nr <= u64::MAX,
            extent_map::known(self.runs(), start as int) matches Some(block)
                ==> device_page::room_behind(
                device_page::device_pages(*old(out)),
                block,
                nr as int,
            ),
        ensures
            res.0 == extent_map::served(self.runs(), start as int, nr as int, create),
            res.1 == (self.runs().len() > 0),
            device_page::device_pages(*final(out)) == device_page::push_all(
                device_page::device_pages(*old(out)),
                extent_map::known_blocks(self.runs(), start as int, res.0 as int),
            ),
    {
        let generation = self.generation();
        if self.map.generation() != generation {
            assert(extent_map::known_blocks(self.runs(), start as int, 0) =~= Seq::empty());
            return (0, false);
        }
        let warm = self.map.nr_extents() != 0;
        (self.map.emit(start, nr, create, out), warm)
    }

    /// Whether `[start, start + nr)` can be served entirely from here, i.e. whether a page-in of
    /// that range would have to walk the block map under the fs lock. Nothing is served of an
    /// object whose extents are stale, not even no pages at all.
    pub fn covers(&self, start: u64, nr: u32) -> (yes: bool)
        requires
            self.wf(),
            self.learned_under() == self.current() ==> start + nr <= u64::MAX,
        ensures
            yes == (self.learned_under() == self.current() && extent_map::served(
                self.runs(),
                start as int,
                nr as int,
                false,
            ) == nr),
    {
        let generation = self.generation();
        self.map.generation() == generation && self.map.covers(start, nr)
    }

    /// Record extents learned by a walk that started at generation `generation`. A racing
    /// invalidation makes this a no-op: what we learned is already stale.
    ///
    /// Returns how often the object was too fragmented to track.
    pub fn commit(&mut self, generation: u64, learned: &[(u64, Option<u64>, u32)]) -> (clears: u64)
        requires
            old(self).wf(),
            generation == old(self).current() ==> all_learnable(learned@),
        ensures
            final(self).wf(),
            old(self).committed_to(*final(self), generation, learned@),
            clears == old(self).clears(generation, learned@),
    {
        if learned.len() == 0 || self.generation() != generation {
            return 0;
        }
        let ghost before = self.runs();
        if self.map.generation() != generation {
            self.map.reset(generation);
        }
        let mut clears: u64 = 0;
        let mut i: usize = 0;
        while i < learned.len()
            invariant
                i <= learned.len(),
                all_learnable(learned@),
                self.wf(),
                self.current() == generation,
                self.current() == old(self).current(),
                self.learned_under() == generation,
                self.recorded() == inserted_all(before, learned@.take(i as int)),
                clears == overflow_count(before, learned@.take(i as int)),
                clears <= i,
            decreases learned.len() - i,
        {
            let (start, pblock, len) = learned[i];
            assert(learnable(learned@[i as int]));
            proof {
                assert(learned@.take(i + 1).drop_last() =~= learned@.take(i as int));
            }
            if self.map.insert(start, pblock, len) {
                clears = clears + 1;
            }
            i = i + 1;
        }
        assert(learned@.take(i as int) =~= learned@);
        clears
    }
}

/// Whether what is known of pages is true of them: `truth` gives the block behind each page.
pub open spec fn faithful(runs: Seq<(u64, Extent)>, truth: spec_fn(int) -> Option<int>) -> bool {
    forall|page: int|
        (#[trigger] extent_map::known(runs, page)) matches Some(block) ==> block == truth(page)
}

/// Whether a learned extent is true: `truth` gives the block behind each page.
pub open spec fn true_extent(
    extent: (u64, Option<u64>, u32),
    truth: spec_fn(int) -> Option<int>,
) -> bool {
    forall|page: int|
        extent.0 <= page < extent.0 + extent.2 ==> #[trigger] truth(page) == (Extent {
            pblock: extent.1,
            len: extent.2,
        }).block(page - extent.0)
}

/// Nothing false is ever known of an object: recording extents that are true of it keeps all that
/// is known of it true.
pub proof fn lemma_commit_is_faithful(
    runs: Seq<(u64, Extent)>,
    learned: Seq<(u64, Option<u64>, u32)>,
    truth: spec_fn(int) -> Option<int>,
)
    requires
        extent_map::ordered(runs),
        faithful(runs, truth),
        all_learnable(learned),
        forall|i: int| 0 <= i < learned.len() ==> true_extent(#[trigger] learned[i], truth),
    ensures
        extent_map::ordered(inserted_all(runs, learned)),
        faithful(inserted_all(runs, learned), truth),
    decreases learned.len(),
{
    if learned.len() > 0 {
        let front = learned.drop_last();
        let last = learned.last();
        assert forall|i: int| 0 <= i < front.len() implies learnable(#[trigger] front[i])
            && true_extent(front[i], truth) by {
            assert(front[i] == learned[i]);
            assert(true_extent(learned[i], truth));
        }
        lemma_commit_is_faithful(runs, front, truth);
        assert(learnable(learned[learned.len() - 1]));
        assert(true_extent(learned[learned.len() - 1], truth));
        let before = inserted_all(runs, front);
        extent_map::lemma_inserted(before, last.0, last.1, last.2, 0);
        assert forall|page: int|
            (#[trigger] extent_map::known(inserted_all(runs, learned), page)) matches Some(
                block,
            ) implies extent_map::known(inserted_all(runs, learned), page) == Some(
            truth(page),
        ) by {
            extent_map::lemma_inserted(before, last.0, last.1, last.2, page);
        }
    }
}

/// However much is recorded of an object, no more extents of it are held than may be.
pub proof fn lemma_commit_is_bounded(
    runs: Seq<(u64, Extent)>,
    learned: Seq<(u64, Option<u64>, u32)>,
)
    requires
        runs.len() <= extent_map::MAX_EXTENTS_PER_OBJECT,
    ensures
        inserted_all(runs, learned).len() <= extent_map::MAX_EXTENTS_PER_OBJECT,
    decreases learned.len(),
{
    if learned.len() > 0 {
        lemma_commit_is_bounded(runs, learned.drop_last());
    }
}

/// What a filler learned last is known: every page of the last extent that was recorded is.
pub proof fn lemma_commit_is_known(
    runs: Seq<(u64, Extent)>,
    learned: Seq<(u64, Option<u64>, u32)>,
    page: int,
)
    requires
        extent_map::ordered(runs),
        all_learnable(learned),
        learned.len() > 0,
        learned.last().0 <= page < learned.last().0 + learned.last().2,
    ensures
        extent_map::known(inserted_all(runs, learned), page) == Some(
            (Extent { pblock: learned.last().1, len: learned.last().2 }).block(
                page - learned.last().0,
            ),
        ),
{
    let front = learned.drop_last();
    assert forall|i: int| 0 <= i < front.len() implies learnable(#[trigger] front[i]) by {
        assert(front[i] == learned[i]);
    }
    lemma_inserted_all_ordered(runs, front);
    assert(learnable(learned[learned.len() - 1]));
    let last = learned.last();
    extent_map::lemma_inserted(inserted_all(runs, front), last.0, last.1, last.2, page);
}

/// Whether some learned extent covers a page.
pub open spec fn learned_covers(learned: Seq<(u64, Option<u64>, u32)>, page: int) -> bool {
    exists|i: int|
        0 <= i < learned.len() && (#[trigger] learned[i]).0 <= page < learned[i].0 + learned[i].2
}

/// What was learned is served from then on, and what was served before still is, unless recording
/// it had to throw everything away.
pub proof fn lemma_commit_serves(
    runs: Seq<(u64, Extent)>,
    learned: Seq<(u64, Option<u64>, u32)>,
    page: int,
    create: bool,
)
    requires
        extent_map::ordered(runs),
        all_learnable(learned),
        overflow_count(runs, learned) == 0,
        extent_map::servable(runs, page, create) || learned_covers(learned, page),
        create ==> forall|i: int| 0 <= i < learned.len() ==> (#[trigger] learned[i]).1 is Some,
    ensures
        extent_map::servable(inserted_all(runs, learned), page, create),
    decreases learned.len(),
{
    if learned.len() > 0 {
        let front = learned.drop_last();
        let last = learned.last();
        assert(learnable(learned[learned.len() - 1]));
        assert forall|i: int| 0 <= i < front.len() implies learnable(#[trigger] front[i]) && (create
            ==> front[i].1 is Some) by {
            assert(front[i] == learned[i]);
        }
        lemma_overflow_count_bounds(runs, front);
        lemma_inserted_all_ordered(runs, front);
        extent_map::lemma_inserted(inserted_all(runs, front), last.0, last.1, last.2, page);
        if last.0 <= page < last.0 + last.2 {
            assert(learned[learned.len() - 1] == last);
        } else {
            if !extent_map::servable(runs, page, create) {
                let i = choose|i: int|
                    0 <= i < learned.len() && (#[trigger] learned[i]).0 <= page < learned[i].0
                        + learned[i].2;
                assert(front[i] == learned[i]);
            }
            lemma_commit_serves(runs, front, page, create);
        }
    }
}

proof fn lemma_overflow_count_bounds(
    runs: Seq<(u64, Extent)>,
    learned: Seq<(u64, Option<u64>, u32)>,
)
    ensures
        overflow_count(runs, learned) >= 0,
    decreases learned.len(),
{
    if learned.len() > 0 {
        lemma_overflow_count_bounds(runs, learned.drop_last());
    }
}

proof fn lemma_inserted_all_ordered(
    runs: Seq<(u64, Extent)>,
    learned: Seq<(u64, Option<u64>, u32)>,
)
    requires
        extent_map::ordered(runs),
        all_learnable(learned),
    ensures
        extent_map::ordered(inserted_all(runs, learned)),
    decreases learned.len(),
{
    if learned.len() > 0 {
        let front = learned.drop_last();
        assert forall|i: int| 0 <= i < front.len() implies learnable(#[trigger] front[i]) by {
            assert(front[i] == learned[i]);
        }
        lemma_inserted_all_ordered(runs, front);
        assert(learnable(learned[learned.len() - 1]));
        let last = learned.last();
        extent_map::lemma_inserted(inserted_all(runs, front), last.0, last.1, last.2, 0);
    }
}

/// Nothing is known of an object once it is invalidated, until something is learned anew. Only
/// after as many invalidations as there are generations would old extents look current again.
pub proof fn lemma_invalidated_is_unknown(before: ObjectExtents, after: ObjectExtents)
    requires
        before.age() < u64::MAX,
        before.bumped_to(after),
    ensures
        after.age() == before.age() + 1,
        after.runs() == Seq::<(u64, Extent)>::empty(),
        forall|start: int, nr: int, create: bool|
            #[trigger] extent_map::served(after.runs(), start, nr, create) == 0,
{
    assert forall|start: int, nr: int, create: bool| #[trigger]
        extent_map::served(after.runs(), start, nr, create) == 0 by {
        assert(extent_map::known(after.runs(), start) is None);
    }
}

/// Extents are recorded in the order in which they were learned, each on top of what the ones
/// before it left, and what each of them throws away is counted.
pub proof fn lemma_recorded_in_order(
    runs: Seq<(u64, Extent)>,
    learned: Seq<(u64, Option<u64>, u32)>,
    next: (u64, Option<u64>, u32),
)
    ensures
        inserted_all(runs, Seq::empty()) == runs,
        overflow_count(runs, Seq::empty()) == 0,
        inserted_all(runs, learned.push(next)) == extent_map::inserted(
            inserted_all(runs, learned),
            next.0,
            next.1,
            next.2,
        ),
        overflow_count(runs, learned.push(next)) == overflow_count(runs, learned)
            + if extent_map::overflows(inserted_all(runs, learned), next.0, next.1, next.2) {
            1int
        } else {
            0
        },
{
    assert(inserted_all(runs, Seq::empty()) == runs);
    assert(overflow_count(runs, Seq::empty()) == 0);
    assert(learned.push(next).drop_last() =~= learned);
}

/// What a walk learned is taken exactly where the object was not invalidated since the walk began:
/// then it is known, on top of what was known before, under the present generation. Otherwise the
/// object stays as it is, and nothing is thrown away.
pub proof fn lemma_commit_takes_what_is_current(
    before: ObjectExtents,
    after: ObjectExtents,
    generation: u64,
    learned: Seq<(u64, Option<u64>, u32)>,
    page: int,
)
    requires
        before.wf(),
        all_learnable(learned),
        before.committed_to(after, generation, learned),
    ensures
        generation != before.current() ==> after == before && before.clears(generation, learned)
            == 0,
        learned.len() == 0 ==> after == before && before.clears(generation, learned) == 0,
        after.current() == before.current(),
        generation == before.current() && learned.len() > 0 ==> {
            &&& after.learned_under() == before.current()
            &&& before.clears(generation, learned) == overflow_count(before.runs(), learned)
            &&& learned.last().0 <= page < learned.last().0 + learned.last().2
                ==> extent_map::known(after.runs(), page) == Some(
                match learned.last().1 {
                    Some(first) => Some(first + (page - learned.last().0)),
                    None => None::<int>,
                },
            )
            &&& !learned_covers(learned, page) && overflow_count(before.runs(), learned) == 0
                ==> extent_map::known(after.runs(), page) == extent_map::known(before.runs(), page)
        },
{
    if generation == before.current() && learned.len() > 0 {
        let last = learned.last();
        if last.0 <= page < last.0 + last.2 {
            lemma_commit_is_known(before.runs(), learned, page);
        }
        if !learned_covers(learned, page) && overflow_count(before.runs(), learned) == 0 {
            lemma_commit_leaves_the_rest(before.runs(), learned, page);
        }
    }
}

/// Recording extents changes nothing that is known of the pages outside them, as long as nothing
/// is thrown away.
pub proof fn lemma_commit_leaves_the_rest(
    runs: Seq<(u64, Extent)>,
    learned: Seq<(u64, Option<u64>, u32)>,
    page: int,
)
    requires
        extent_map::ordered(runs),
        all_learnable(learned),
        overflow_count(runs, learned) == 0,
        !learned_covers(learned, page),
    ensures
        extent_map::known(inserted_all(runs, learned), page) == extent_map::known(runs, page),
    decreases learned.len(),
{
    if learned.len() > 0 {
        let front = learned.drop_last();
        let last = learned.last();
        assert(learned[learned.len() - 1] == last);
        assert(learnable(learned[learned.len() - 1]));
        assert forall|i: int| 0 <= i < front.len() implies learnable(#[trigger] front[i]) && !(
        front[i].0 <= page < front[i].0 + front[i].2) by {
            assert(front[i] == learned[i]);
            assert(learnable(learned[i]));
        }
        lemma_overflow_count_bounds(runs, front);
        lemma_inserted_all_ordered(runs, front);
        lemma_commit_leaves_the_rest(runs, front, page);
        extent_map::lemma_inserted(inserted_all(runs, front), last.0, last.1, last.2, page);
    }
}

/// An invalidation is a step to the next generation, round to zero behind the last one. It changes
/// nothing else. What is known is what was recorded, as long as it was learned under the present
/// generation.
pub proof fn lemma_generations(before: ObjectExtents, after: ObjectExtents)
    ensures
        before.bumped_to(after) ==> {
            &&& after.current() == (before.current() + 1) % 0x1_0000_0000_0000_0000
            &&& after.learned_under() == before.learned_under()
            &&& after.recorded() == before.recorded()
        },
        after.learned_under() == after.current() ==> after.runs() == after.recorded(),
        after.learned_under() != after.current() ==> after.runs().len() == 0,
{
}

} // verus!
