//! The objects whose extents are tracked.

use std::collections::HashMap;

use vstd::prelude::*;

use crate::extents::extent_map::Extent;
use crate::extents::object;
use crate::extents::object::ObjectExtents;
use crate::paged_object_store::ObjID;

verus! {

/// Objects tracked before the least-recently-used is dropped.
pub const MAX_TRACKED_OBJECTS: usize = 1024;

/// `lru::LruCache`, a map that drops its least recently used entry when it is full.
#[verifier::external_type_specification]
#[verifier::external_body]
#[verifier::reject_recursive_types(K)]
#[verifier::reject_recursive_types(V)]
#[verifier::reject_recursive_types(S)]
pub struct ExLruCache<K, V, S>(lru::LruCache<K, V, S>);

/// `lru::DefaultHasher`, what the cache hashes its keys with.
#[verifier::external_type_specification]
#[verifier::external_body]
pub struct ExLruDefaultHasher(lru::DefaultHasher);

/// What an `lru::LruCache` holds, the most recently used entry first.
pub uninterp spec fn recency(cache: lru::LruCache<ObjID, u64>) -> Seq<(ObjID, u64)>;

/// How many entries an `lru::LruCache` was made to hold.
pub uninterp spec fn capacity(cache: lru::LruCache<ObjID, u64>) -> nat;

/// Whether no key occurs twice.
pub open spec fn distinct(entries: Seq<(ObjID, u64)>) -> bool {
    forall|i: int, j: int|
        0 <= i < j < entries.len() ==> (#[trigger] entries[i]).0 != (#[trigger] entries[j]).0
}

/// Whether a key occurs.
pub open spec fn has_key(entries: Seq<(ObjID, u64)>, id: ObjID) -> bool {
    exists|i: int| 0 <= i < entries.len() && (#[trigger] entries[i]).0 == id
}

/// Where a key occurs.
pub open spec fn position(entries: Seq<(ObjID, u64)>, id: ObjID) -> int {
    choose|i: int| 0 <= i < entries.len() && (#[trigger] entries[i]).0 == id
}

/// The value of a key.
pub open spec fn lookup(entries: Seq<(ObjID, u64)>, id: ObjID) -> Option<u64> {
    if has_key(entries, id) {
        Some(entries[position(entries, id)].1)
    } else {
        None
    }
}

/// Entries with that of a key moved to the front.
pub open spec fn promoted(entries: Seq<(ObjID, u64)>, id: ObjID) -> Seq<(ObjID, u64)> {
    seq![entries[position(entries, id)]] + entries.remove(position(entries, id))
}

/// Entries with a new one in front, the last one gone where there is no room for it.
pub open spec fn admitted(
    entries: Seq<(ObjID, u64)>,
    entry: (ObjID, u64),
    cap: nat,
) -> Seq<(ObjID, u64)> {
    seq![entry] + if entries.len() == cap {
        entries.drop_last()
    } else {
        entries
    }
}

/// `lru::LruCache::new`: the new cache is empty and holds up to `cap` entries.
#[verifier::external_body]
fn new_cache(cap: usize) -> (cache: lru::LruCache<ObjID, u64>)
    requires
        cap > 0,
    ensures
        recency(cache) == Seq::<(ObjID, u64)>::empty(),
        capacity(cache) == cap,
{
    lru::LruCache::new(std::num::NonZeroUsize::new(cap).unwrap())
}

/// `lru::LruCache::get`: the value of the key. Its entry becomes the most recently used one, and
/// the others keep their order.
#[verifier::external_body]
fn cache_get(cache: &mut lru::LruCache<ObjID, u64>, id: ObjID) -> (value: Option<u64>)
    requires
        distinct(recency(*old(cache))),
    ensures
        value == lookup(recency(*old(cache)), id),
        recency(*final(cache)) == if has_key(recency(*old(cache)), id) {
            promoted(recency(*old(cache)), id)
        } else {
            recency(*old(cache))
        },
        capacity(*final(cache)) == capacity(*old(cache)),
{
    cache.get(&id).copied()
}

/// `lru::LruCache::push`, for a key that the cache does not hold: its entry becomes the most
/// recently used one. A full cache drops the least recently used entry for it and gives that back.
#[verifier::external_body]
fn cache_push(cache: &mut lru::LruCache<ObjID, u64>, id: ObjID, value: u64) -> (evicted: Option<
    (ObjID, u64),
>)
    requires
        distinct(recency(*old(cache))),
        !has_key(recency(*old(cache)), id),
        recency(*old(cache)).len() <= capacity(*old(cache)),
        capacity(*old(cache)) > 0,
    ensures
        recency(*final(cache)) == admitted(
            recency(*old(cache)),
            (id, value),
            capacity(*old(cache)),
        ),
        evicted == if recency(*old(cache)).len() == capacity(*old(cache)) {
            Some(recency(*old(cache)).last())
        } else {
            None
        },
        capacity(*final(cache)) == capacity(*old(cache)),
{
    cache.push(id, value)
}

/// `lru::LruCache::peek`: the value of the key, with the order of the entries left as it is.
#[verifier::external_body]
fn cache_peek(cache: &lru::LruCache<ObjID, u64>, id: ObjID) -> (value: Option<u64>)
    requires
        distinct(recency(*cache)),
    ensures
        value == lookup(recency(*cache), id),
{
    cache.peek(&id).copied()
}

/// An entry, and who uses it.
#[derive(Debug)]
struct Slot {
    object: ObjectExtents,
    /// How often the entry is held.
    holders: u64,
    /// Whether the entry is that of a tracked object.
    attached: bool,
}

/// The tracked objects.
///
/// An object is reached through the entry that [`ExtentTracker::entry`] gives out for it. Whoever
/// holds an entry can go on reading and filling it, even once its object is dropped: the entry is
/// then detached, and goes when the last holder lets go of it. Each entry lies in a slot of its
/// own, and a slot is never used again.
#[derive(Debug)]
pub struct ExtentTracker {
    objects: lru::LruCache<ObjID, u64>,
    slots: HashMap<u64, Slot>,
    issued: u64,
}

/// A hold on an entry. It lasts until it is given back to [`ExtentTracker::let_go`].
#[must_use]
#[derive(Debug)]
pub struct EntryHold {
    slot: u64,
}

impl EntryHold {
    /// The slot of the entry.
    pub closed spec fn slot(self) -> u64 {
        self.slot
    }
}

/// Bumps an object's generation when released. Only releasing it does: whoever leaves a
/// partially-applied mutation early has to release the guard on the way out.
#[must_use]
#[derive(Debug)]
pub struct InvalidateOnDrop {
    entry: EntryHold,
}

impl InvalidateOnDrop {
    /// The slot whose object is invalidated.
    pub closed spec fn target(self) -> u64 {
        self.entry.slot()
    }

    /// Invalidates the object, and lets go of its entry.
    pub fn release(self, tracker: &mut ExtentTracker)
        requires
            old(tracker).wf(),
        ensures
            final(tracker).wf(),
            let_go_of(*old(tracker), *final(tracker), self.target()),
            ({
                let (before, after) = (old(tracker).held(), final(tracker).held());
                let slot = self.target();
                after.dom().contains(slot) ==> before[slot].bumped_to(after[slot])
            }),
    {
        tracker.invalidate(&self.entry);
        tracker.let_go(self.entry);
    }
}

/// Whether `after` is `before`, but for what is known of the object in `slot`.
pub open spec fn same_but(before: ExtentTracker, after: ExtentTracker, slot: u64) -> bool {
    &&& after.by_recency() == before.by_recency()
    &&& after.issued() == before.issued()
    &&& forall|s: u64| #[trigger] after.holders(s) == before.holders(s)
    &&& after.held().dom() == before.held().dom()
    &&& forall|s: u64|
        before.held().dom().contains(s) && s != slot ==> #[trigger] after.held()[s]
            == before.held()[s]
}

/// Whether `after` is `before` with an entry for `id`, in `slot`, made the most recently used one,
/// and held once more where `hold` says so. An entry that is not there yet is created, in a slot
/// that was not used before and with nothing known, and takes the place of the least recently used
/// one where there is no other. An entry that loses its place stays as long as someone holds it.
pub open spec fn entered(
    before: ExtentTracker,
    after: ExtentTracker,
    id: ObjID,
    slot: u64,
    hold: bool,
) -> bool {
    &&& after.slot_of(id) == Some(slot)
    &&& after.held().dom().contains(slot)
    &&& after.issued() == before.issued() + 1
    &&& forall|s: u64| #[trigger]
        after.holders(s) == before.holders(s) + if hold && s == slot {
            1int
        } else {
            0
        }
    &&& before.slot_of(id) matches Some(s) ==> {
        &&& slot == s
        &&& after.by_recency() == promoted(before.by_recency(), id)
        &&& after.held() == before.held()
    }
    &&& before.slot_of(id) is None ==> {
        &&& slot == before.issued()
        &&& after.by_recency() == admitted(
            before.by_recency(),
            (id, slot),
            MAX_TRACKED_OBJECTS as nat,
        )
        &&& after.held()[slot].wf()
        &&& after.held()[slot].current() == 0
        &&& after.held()[slot].learned_under() == 0
        &&& after.held()[slot].runs() == Seq::<(u64, Extent)>::empty()
        &&& after.held() == (if before.by_recency().len() == MAX_TRACKED_OBJECTS
            && before.holders(before.by_recency().last().1) == 0 {
            before.held().remove(before.by_recency().last().1)
        } else {
            before.held()
        }).insert(slot, after.held()[slot])
    }
}

/// Whether `after` is `before` with the entry in `slot` held once less, if it was held. What it
/// holds may differ. An entry that no one holds any more goes, unless its object is tracked.
pub open spec fn let_go_of(before: ExtentTracker, after: ExtentTracker, slot: u64) -> bool {
    &&& after.by_recency() == before.by_recency()
    &&& after.issued() == before.issued()
    &&& forall|s: u64| #[trigger]
        after.holders(s) == if s == slot && before.holders(s) > 0 {
            before.holders(s) - 1
        } else {
            before.holders(s)
        }
    &&& after.held().dom() == if after.holders(slot) == 0 && !before.attached(slot) {
        before.held().dom().remove(slot)
    } else {
        before.held().dom()
    }
    &&& forall|s: u64|
        before.held().dom().contains(s) && s != slot ==> #[trigger] after.held()[s]
            == before.held()[s]
}

impl ExtentTracker {
    /// The tracked objects with their slots, the most recently used first.
    pub closed spec fn by_recency(self) -> Seq<(ObjID, u64)> {
        recency(self.objects)
    }

    /// What each slot holds.
    pub closed spec fn held(self) -> Map<u64, ObjectExtents> {
        Map::new(|s: u64| self.slots@.dom().contains(s), |s: u64| self.slots@[s].object)
    }

    /// How often the entry in a slot is held.
    pub closed spec fn holders(self, slot: u64) -> int {
        if self.slots@.dom().contains(slot) {
            self.slots@[slot].holders as int
        } else {
            0
        }
    }

    /// How many times an entry was taken. No slot has a higher number.
    pub closed spec fn issued(self) -> u64 {
        self.issued
    }

    closed spec fn room(self) -> nat {
        capacity(self.objects)
    }

    /// Whether each tracked object has a slot of its own, each slot that holds something belongs to
    /// a tracked object or is held by someone, and no more objects are tracked than may be.
    pub closed spec fn wf(self) -> bool {
        &&& self.room() == MAX_TRACKED_OBJECTS
        &&& self.by_recency().len() <= MAX_TRACKED_OBJECTS
        &&& distinct(self.by_recency())
        &&& forall|i: int, j: int|
            0 <= i < j < self.by_recency().len() ==> (#[trigger] self.by_recency()[i]).1 != (
            #[trigger] self.by_recency()[j]).1
        &&& forall|i: int|
            0 <= i < self.by_recency().len() ==> {
                let s = (#[trigger] self.by_recency()[i]).1;
                self.slots@.dom().contains(s) && self.slots@[s].attached
            }
        &&& forall|s: u64| #[trigger]
            self.slots@.dom().contains(s) ==> {
                &&& s < self.issued
                &&& self.slots@[s].object.wf()
                &&& self.slots@[s].holders <= self.issued
                &&& self.slots@[s].attached ==> self.attached(s)
                &&& !self.slots@[s].attached ==> self.slots@[s].holders > 0
            }
    }

    /// The slot of an object, if it is tracked.
    pub open spec fn slot_of(self, id: ObjID) -> Option<u64> {
        lookup(self.by_recency(), id)
    }

    /// Whether a slot is that of a tracked object.
    pub open spec fn attached(self, slot: u64) -> bool {
        exists|i: int|
            0 <= i < self.by_recency().len() && (#[trigger] self.by_recency()[i]).1 == slot
    }

    /// Whether a slot that was used has lost its object.
    pub open spec fn detached(self, slot: u64) -> bool {
        slot < self.issued() && !self.attached(slot)
    }

    /// What follows from well-formedness for other modules.
    pub proof fn lemma_wf(self)
        requires
            self.wf(),
        ensures
            self.by_recency().len() <= MAX_TRACKED_OBJECTS,
            distinct(self.by_recency()),
            forall|s: u64| #[trigger]
                self.held().dom().contains(s) ==> s < self.issued() && self.held()[s].wf(),
            forall|s: u64| #[trigger]
                self.held().dom().contains(s) <==> self.attached(s) || self.holders(s) > 0,
            forall|s: u64| 0 <= #[trigger] self.holders(s) <= self.issued(),
            forall|id: ObjID| #[trigger]
                self.slot_of(id) matches Some(s) ==> {
                    &&& self.attached(s)
                    &&& self.held().dom().contains(s)
                },
    {
        assert forall|id: ObjID| #[trigger]
            self.slot_of(id) matches Some(s) implies self.attached(self.slot_of(id).unwrap())
            && self.held().dom().contains(self.slot_of(id).unwrap()) by {
            assert(self.by_recency()[position(self.by_recency(), id)].0 == id);
        }
    }

    proof fn lemma_same_slots(self, after: ExtentTracker)
        requires
            self.wf(),
            after.objects == self.objects,
            after.issued == self.issued,
            after.slots@.dom() == self.slots@.dom(),
            forall|s: u64| #[trigger]
                self.slots@.dom().contains(s) ==> {
                    &&& after.slots@[s].object.wf()
                    &&& after.slots@[s].holders == self.slots@[s].holders
                    &&& after.slots@[s].attached == self.slots@[s].attached
                },
        ensures
            after.wf(),
            after.held().dom() == self.held().dom(),
    {
        assert(after.held().dom() =~= self.held().dom());
        assert forall|s: u64| #[trigger] after.slots@.dom().contains(s)
            && after.slots@[s].attached implies after.attached(s) by {
            assert(self.attached(s));
            let i = choose|i: int|
                0 <= i < self.by_recency().len() && (#[trigger] self.by_recency()[i]).1 == s;
            assert(after.by_recency()[i].1 == s);
        }
        assert forall|i: int| 0 <= i < after.by_recency().len() implies {
            let s = (#[trigger] after.by_recency()[i]).1;
            after.slots@.dom().contains(s) && after.slots@[s].attached
        } by {
            assert(self.slots@.dom().contains(self.by_recency()[i].1));
        }
    }

    /// A tracker of no objects.
    pub fn new() -> (tracker: Self)
        ensures
            tracker.wf(),
            tracker.by_recency() == Seq::<(ObjID, u64)>::empty(),
            tracker.held() == Map::<u64, ObjectExtents>::empty(),
            forall|s: u64| #[trigger] tracker.holders(s) == 0,
            tracker.issued() == 0,
    {
        let tracker = ExtentTracker {
            objects: new_cache(MAX_TRACKED_OBJECTS),
            slots: HashMap::new(),
            issued: 0,
        };
        assert(tracker.held() =~= Map::<u64, ObjectExtents>::empty());
        tracker
    }

    /// Whether another entry can be taken: there is a slot left for it.
    pub fn has_slots(&self) -> (yes: bool)
        ensures
            yes == (self.issued() < u64::MAX),
    {
        self.issued < u64::MAX
    }

    /// The entry for `id`, creating it if absent.
    ///
    /// Entries are only ever created fresh here, never re-inserted. An entry evicted while a filler
    /// holds it is thereby detached: the filler commits into a map nothing will read, and the
    /// replacement starts empty, which is "unknown", which is correct.
    pub fn entry(&mut self, id: ObjID) -> (entry: EntryHold)
        requires
            old(self).wf(),
            old(self).issued() < u64::MAX,
        ensures
            final(self).wf(),
            entered(*old(self), *final(self), id, entry.slot(), true),
            final(self).holders(entry.slot()) > 0,
    {
        let ghost before = self.by_recency();
        let ghost slots = self.slots@;
        if let Some(slot) = cache_get(&mut self.objects, id) {
            proof {
                assert(before[position(before, id)].0 == id);
            }
            if let Some(held) = self.slots.remove(&slot) {
                let _ = self.slots.insert(slot, Slot { holders: held.holders + 1, ..held });
            }
            self.issued = self.issued + 1;
            proof {
                lemma_promoted(before, id);
                assert forall|s: u64| #[trigger] self.slots@.dom().contains(s)
                    && self.slots@[s].attached implies self.attached(s) by {
                    assert(slots.dom().contains(s) && slots[s].attached);
                    let i = choose|i: int| 0 <= i < before.len() && (#[trigger] before[i]).1 == s;
                    let j = lemma_promoted_keeps(before, id, i);
                    assert(self.by_recency()[j].1 == s);
                }
                assert forall|i: int| 0 <= i < self.by_recency().len() implies {
                    let s = (#[trigger] self.by_recency()[i]).1;
                    self.slots@.dom().contains(s) && self.slots@[s].attached
                } by {
                    let j = choose|j: int|
                        0 <= j < before.len() && before[j] == self.by_recency()[i];
                    assert(slots.dom().contains(before[j].1));
                }
                assert(self.held() =~= old(self).held());
            }
            return EntryHold { slot };
        }
        let slot: u64 = self.issued;
        let evicted = cache_push(&mut self.objects, id, slot);
        if let Some((_, gone)) = evicted {
            if let Some(held) = self.slots.remove(&gone) {
                if held.holders > 0 {
                    let _ = self.slots.insert(gone, Slot { attached: false, ..held });
                }
            }
        }
        let _ = self.slots.insert(
            slot,
            Slot { object: ObjectExtents::new(), holders: 1, attached: true },
        );
        self.issued = slot + 1;
        proof {
            let now = self.by_recency();
            let full = before.len() == MAX_TRACKED_OBJECTS;
            let last = before[before.len() - 1].1;
            assert(now[0] == (id, slot));
            assert forall|i: int| 0 < i < now.len() implies #[trigger] now[i] == before[i - 1] by {}
            if full {
                assert(slots.dom().contains(last) && slots[last].attached);
            }
            assert forall|i: int, j: int| 0 <= i < j < now.len() implies (#[trigger] now[i]).0 != (
            #[trigger] now[j]).0 && now[i].1 != now[j].1 by {
                if i == 0 {
                    assert(before[j - 1].0 != id);
                    assert(slots.dom().contains(before[j - 1].1));
                } else {
                    assert(before[i - 1].0 != before[j - 1].0);
                    assert(before[i - 1].1 != before[j - 1].1);
                }
            }
            assert forall|i: int| 0 <= i < now.len() implies {
                let s = (#[trigger] now[i]).1;
                self.slots@.dom().contains(s) && self.slots@[s].attached
            } by {
                if i > 0 {
                    assert(slots.dom().contains(before[i - 1].1));
                    if full {
                        assert(before[i - 1].1 != before[before.len() - 1].1);
                    }
                }
            }
            assert forall|s: u64| #[trigger] self.slots@.dom().contains(s)
                && self.slots@[s].attached implies self.attached(s) by {
                if s == slot {
                    assert(now[0].1 == s);
                } else {
                    assert(slots.dom().contains(s) && slots[s].attached);
                    let i = choose|i: int| 0 <= i < before.len() && (#[trigger] before[i]).1 == s;
                    assert(now[i + 1].1 == s);
                }
            }
            lemma_lookup(now, id, 0);
            let rest = if full && old(self).holders(before.last().1) == 0 {
                old(self).held().remove(before.last().1)
            } else {
                old(self).held()
            };
            assert(self.held() =~= rest.insert(slot, self.held()[slot]));
        }
        EntryHold { slot }
    }

    /// Ends a hold on an entry.
    pub fn let_go(&mut self, entry: EntryHold)
        requires
            old(self).wf(),
        ensures
            final(self).wf(),
            let_go_of(*old(self), *final(self), entry.slot()),
            final(self).held().dom().contains(entry.slot()) ==> final(self).held()[entry.slot()]
                == old(self).held()[entry.slot()],
    {
        let slot: u64 = entry.slot;
        let ghost slots = self.slots@;
        if let Some(held) = self.slots.remove(&slot) {
            let holders: u64 = held.holders.saturating_sub(1);
            if holders > 0 || held.attached {
                let _ = self.slots.insert(slot, Slot { holders, ..held });
            }
        }
        proof {
            assert forall|s: u64| #[trigger] self.slots@.dom().contains(s)
                && self.slots@[s].attached implies self.attached(s) by {
                assert(slots.dom().contains(s));
                assert(old(self).attached(s));
                let before = old(self).by_recency();
                let i = choose|i: int| 0 <= i < before.len() && (#[trigger] before[i]).1 == s;
                assert(self.by_recency()[i].1 == s);
            }
            assert forall|i: int| 0 <= i < self.by_recency().len() implies {
                let s = (#[trigger] self.by_recency()[i]).1;
                self.slots@.dom().contains(s) && self.slots@[s].attached
            } by {
                assert(slots.dom().contains(old(self).by_recency()[i].1));
            }
            let kept = if self.holders(slot) == 0 && !old(self).attached(slot) {
                old(self).held().dom().remove(slot)
            } else {
                old(self).held().dom()
            };
            assert(self.held().dom() =~= kept);
        }
    }

    /// The entry for `id` if there is one, without creating it or promoting it in the LRU.
    ///
    /// For probes: asking whether a range is cached must not evict the entry of some other object
    /// to record that it wasn't, nor reorder the recency the real fillers established.
    pub fn peek(&self, id: ObjID) -> (object: Option<&ObjectExtents>)
        requires
            self.wf(),
        ensures
            object is None <==> self.slot_of(id) is None,
            object matches Some(o) ==> *o == self.held()[self.slot_of(id).unwrap()] && o.wf(),
    {
        proof {
            self.lemma_wf();
        }
        match cache_peek(&self.objects, id) {
            Some(slot) => match self.slots.get(&slot) {
                Some(held) => Some(&held.object),
                None => None,
            },
            None => None,
        }
    }

    /// The object behind an entry, tracked or not. Only a hold on an entry of another tracker may
    /// have none.
    pub fn object(&self, entry: &EntryHold) -> (object: Option<&ObjectExtents>)
        requires
            self.wf(),
        ensures
            object is None <==> !self.held().dom().contains(entry.slot()),
            object matches Some(o) ==> *o == self.held()[entry.slot()] && o.wf(),
    {
        match self.slots.get(&entry.slot) {
            Some(held) => Some(&held.object),
            None => None,
        }
    }

    /// Forgets everything known about the object behind an entry.
    pub fn invalidate(&mut self, entry: &EntryHold)
        requires
            old(self).wf(),
        ensures
            final(self).wf(),
            same_but(*old(self), *final(self), entry.slot()),
            ({
                let (before, after) = (old(self).held(), final(self).held());
                let slot = entry.slot();
                before.dom().contains(slot) ==> before[slot].bumped_to(after[slot])
            }),
    {
        let slot: u64 = entry.slot;
        if let Some(mut held) = self.slots.remove(&slot) {
            assert(old(self).slots@.dom().contains(slot));
            held.object.invalidate();
            let _ = self.slots.insert(slot, held);
        }
        proof {
            assert(self.slots@.dom() =~= old(self).slots@.dom());
            old(self).lemma_same_slots(*self);
        }
    }

    /// Records extents learned about the object behind an entry by a walk that started at
    /// generation `generation`. Where the object was invalidated since, this is a no-op.
    ///
    /// Returns how often the object was too fragmented to track.
    pub fn commit(
        &mut self,
        entry: &EntryHold,
        generation: u64,
        learned: &[(u64, Option<u64>, u32)],
    ) -> (clears: u64)
        requires
            old(self).wf(),
            ({
                let held = old(self).held();
                let slot = entry.slot();
                held.dom().contains(slot) && generation == held[slot].current()
                    ==> object::all_learnable(learned@)
            }),
        ensures
            final(self).wf(),
            same_but(*old(self), *final(self), entry.slot()),
            ({
                let (before, after) = (old(self).held(), final(self).held());
                let slot = entry.slot();
                if before.dom().contains(slot) {
                    &&& before[slot].committed_to(after[slot], generation, learned@)
                    &&& clears == before[slot].clears(generation, learned@)
                } else {
                    clears == 0
                }
            }),
    {
        let slot: u64 = entry.slot;
        let mut clears: u64 = 0;
        if let Some(mut held) = self.slots.remove(&slot) {
            assert(old(self).slots@.dom().contains(slot));
            clears = held.object.commit(generation, learned);
            let _ = self.slots.insert(slot, held);
        }
        proof {
            assert(self.slots@.dom() =~= old(self).slots@.dom());
            old(self).lemma_same_slots(*self);
        }
        clears
    }

    /// A guard that invalidates `id` when it is released.
    pub fn invalidate_on_drop(&mut self, id: ObjID) -> (guard: InvalidateOnDrop)
        requires
            old(self).wf(),
            old(self).issued() < u64::MAX,
        ensures
            final(self).wf(),
            entered(*old(self), *final(self), id, guard.target(), true),
    {
        InvalidateOnDrop { entry: self.entry(id) }
    }
}

impl Default for ExtentTracker {
    fn default() -> (tracker: Self)
        ensures
            tracker.wf(),
            tracker.by_recency() == Seq::<(ObjID, u64)>::empty(),
            tracker.held() == Map::<u64, ObjectExtents>::empty(),
            forall|s: u64| #[trigger] tracker.holders(s) == 0,
            tracker.issued() == 0,
    {
        ExtentTracker::new()
    }
}

proof fn lemma_lookup(entries: Seq<(ObjID, u64)>, id: ObjID, i: int)
    requires
        distinct(entries),
        0 <= i < entries.len(),
        entries[i].0 == id,
    ensures
        has_key(entries, id),
        position(entries, id) == i,
        lookup(entries, id) == Some(entries[i].1),
{
    let j = position(entries, id);
    assert(0 <= j < entries.len() && entries[j].0 == id);
    if j < i {
        assert(entries[j].0 != entries[i].0);
    } else if i < j {
        assert(entries[i].0 != entries[j].0);
    }
}

proof fn lemma_promoted(entries: Seq<(ObjID, u64)>, id: ObjID)
    requires
        distinct(entries),
        has_key(entries, id),
        forall|i: int, j: int|
            0 <= i < j < entries.len() ==> (#[trigger] entries[i]).1 != (#[trigger] entries[j]).1,
    ensures
        promoted(entries, id).len() == entries.len(),
        distinct(promoted(entries, id)),
        forall|i: int, j: int|
            0 <= i < j < entries.len() ==> (#[trigger] promoted(entries, id)[i]).1 != (
            #[trigger] promoted(entries, id)[j]).1,
        forall|i: int|
            0 <= i < entries.len() ==> entries.contains(#[trigger] promoted(entries, id)[i]),
        lookup(promoted(entries, id), id) == lookup(entries, id),
{
    let p = position(entries, id);
    let now = promoted(entries, id);
    assert(now[0] == entries[p]);
    assert forall|i: int| 0 < i < now.len() implies #[trigger] now[i] == entries[if i <= p {
        i - 1
    } else {
        i
    }] by {}
    assert forall|i: int, j: int| 0 <= i < j < now.len() implies (#[trigger] now[i]).0 != (
    #[trigger] now[j]).0 && now[i].1 != now[j].1 by {
        let a = if i == 0 {
            p
        } else if i <= p {
            i - 1
        } else {
            i
        };
        let b = if j <= p {
            j - 1
        } else {
            j
        };
        assert(now[i] == entries[a]);
        assert(now[j] == entries[b]);
        if a < b {
            assert(entries[a].0 != entries[b].0 && entries[a].1 != entries[b].1);
        } else {
            assert(entries[b].0 != entries[a].0 && entries[b].1 != entries[a].1);
        }
    }
    lemma_lookup(now, id, 0);
}

proof fn lemma_promoted_keeps(entries: Seq<(ObjID, u64)>, id: ObjID, i: int) -> (j: int)
    requires
        has_key(entries, id),
        0 <= i < entries.len(),
    ensures
        0 <= j < promoted(entries, id).len(),
        promoted(entries, id)[j] == entries[i],
{
    let p = position(entries, id);
    if i == p {
        0
    } else if i < p {
        i + 1
    } else {
        i
    }
}

/// Taking the entry of an object and letting go of it again leaves the object entered, with as many
/// holders as before.
pub proof fn lemma_visited(
    before: ExtentTracker,
    between: ExtentTracker,
    after: ExtentTracker,
    id: ObjID,
    slot: u64,
)
    requires
        before.wf(),
        entered(before, between, id, slot, true),
        let_go_of(between, after, slot),
    ensures
        after.held().dom() == between.held().dom(),
        after.held().dom().contains(slot),
        after.held()[slot] == between.held()[slot] ==> entered(before, after, id, slot, false),
{
    before.lemma_wf();
    let entries = between.by_recency();
    assert(entries[position(entries, id)].1 == slot);
    assert(between.attached(slot));
    assert(before.holders(slot) >= 0);
    if after.held()[slot] == between.held()[slot] {
        assert(after.held() =~= between.held());
    }
}

/// Whoever holds an entry keeps it, whatever is entered: it can still be read and filled, though
/// its object may have lost its place to another one.
pub proof fn lemma_holders_keep_their_entry(
    before: ExtentTracker,
    after: ExtentTracker,
    id: ObjID,
    slot: u64,
    hold: bool,
    mine: u64,
)
    requires
        before.wf(),
        entered(before, after, id, slot, hold),
        before.holders(mine) > 0,
    ensures
        after.held().dom().contains(mine),
        after.held()[mine] == before.held()[mine],
        after.holders(mine) >= before.holders(mine),
{
    before.lemma_wf();
    assert(before.held().dom().contains(mine));
}

/// Letting go of one hold leaves the other holders what they have.
pub proof fn lemma_letting_go_keeps_others(
    before: ExtentTracker,
    after: ExtentTracker,
    slot: u64,
    mine: u64,
)
    requires
        before.wf(),
        let_go_of(before, after, slot),
        before.holders(mine) > if mine == slot {
            1int
        } else {
            0
        },
    ensures
        after.held().dom().contains(mine),
        after.holders(mine) > 0,
        mine != slot ==> after.held()[mine] == before.held()[mine],
{
    before.lemma_wf();
    assert(before.held().dom().contains(mine));
}

/// A slot is never used again: once it is detached it stays detached, whatever is entered.
pub proof fn lemma_slots_are_not_reissued(
    before: ExtentTracker,
    after: ExtentTracker,
    id: ObjID,
    slot: u64,
    hold: bool,
    gone: u64,
)
    requires
        before.wf(),
        entered(before, after, id, slot, hold),
        before.detached(gone),
    ensures
        after.detached(gone),
        slot != gone,
{
    before.lemma_wf();
    assert(before.slot_of(id) matches Some(s) ==> before.attached(s));
    if after.attached(gone) {
        let now = after.by_recency();
        let was = before.by_recency();
        let i = choose|i: int| 0 <= i < now.len() && (#[trigger] now[i]).1 == gone;
        if before.slot_of(id) is Some {
            let p = position(was, id);
            let j = if i == 0 {
                p
            } else if i <= p {
                i - 1
            } else {
                i
            };
            assert(was[j].1 == gone);
        } else {
            assert(i > 0);
            assert(was[i - 1].1 == gone);
        }
        assert(before.attached(gone));
    }
}

/// No object is read from a detached slot: whatever is committed there, nothing will read it.
pub proof fn lemma_detached_is_unread(tracker: ExtentTracker, slot: u64, id: ObjID)
    requires
        tracker.wf(),
        tracker.detached(slot),
    ensures
        tracker.slot_of(id) != Some(slot),
{
    tracker.lemma_wf();
}

/// Entering an object into a full tracker detaches the slot of the least recently used one, and no
/// other. What lies there goes, unless someone holds it.
pub proof fn lemma_eviction_detaches(
    before: ExtentTracker,
    after: ExtentTracker,
    id: ObjID,
    slot: u64,
    hold: bool,
)
    requires
        before.wf(),
        entered(before, after, id, slot, hold),
        before.slot_of(id) is None,
        before.by_recency().len() == MAX_TRACKED_OBJECTS,
    ensures
        after.detached(before.by_recency().last().1),
        after.held().dom().contains(before.by_recency().last().1) <==> before.holders(
            before.by_recency().last().1,
        ) > 0,
        after.by_recency().len() == MAX_TRACKED_OBJECTS,
        forall|s: u64| #[trigger]
            before.held().dom().contains(s) && s != before.by_recency().last().1
                ==> after.held().dom().contains(s) && after.held()[s] == before.held()[s],
        forall|s: u64| #[trigger]
            before.attached(s) && s != before.by_recency().last().1 ==> after.attached(s),
{
    before.lemma_wf();
    let was = before.by_recency();
    let now = after.by_recency();
    let last = was[was.len() - 1].1;
    assert(before.attached(last));
    assert(before.held().dom().contains(last));
    if after.attached(last) {
        let i = choose|i: int| 0 <= i < now.len() && (#[trigger] now[i]).1 == last;
        assert(i > 0);
        assert(was[i - 1].1 != was[was.len() - 1].1);
    }
    assert forall|s: u64| #[trigger] before.attached(s) && s != last implies after.attached(s) by {
        let i = choose|i: int| 0 <= i < was.len() && (#[trigger] was[i]).1 == s;
        assert(now[i + 1].1 == s);
    }
    assert forall|s: u64| #[trigger]
        before.held().dom().contains(s) && s != last implies after.held().dom().contains(s)
        && after.held()[s] == before.held()[s] by {
        assert(s < before.issued());
    }
}

/// Releasing a guard forgets what was known of the object: whatever the guarded mutation did to it,
/// nothing that was learned before is served any more.
pub proof fn lemma_release_forgets(before: ExtentTracker, after: ExtentTracker, slot: u64)
    requires
        let_go_of(before, after, slot),
        after.held().dom().contains(slot) ==> before.held()[slot].bumped_to(after.held()[slot]),
        before.held()[slot].age() < u64::MAX,
    ensures
        after.held().dom().contains(slot) ==> after.held()[slot].runs() == Seq::<
            (u64, Extent),
        >::empty(),
{
    if after.held().dom().contains(slot) {
        object::lemma_invalidated_is_unknown(before.held()[slot], after.held()[slot]);
    }
}

/// A key is found where it occurs, and nowhere else.
pub proof fn lemma_lookup_finds(entries: Seq<(ObjID, u64)>, id: ObjID)
    requires
        distinct(entries),
    ensures
        forall|i: int|
            0 <= i < entries.len() && (#[trigger] entries[i]).0 == id ==> lookup(entries, id)
                == Some(entries[i].1),
        (forall|i: int| 0 <= i < entries.len() ==> (#[trigger] entries[i]).0 != id) ==> lookup(
            entries,
            id,
        ) is None,
{
    assert forall|i: int| 0 <= i < entries.len() && (#[trigger] entries[i]).0 == id implies lookup(
        entries,
        id,
    ) == Some(entries[i].1) by {
        lemma_lookup(entries, id, i);
    }
}

/// The object that was entered last stands first, and the others stand behind it in the order that
/// they had. None of them goes, but the one that was used least recently where a new object finds
/// 1024 others.
pub proof fn lemma_entered_stands_first(
    before: ExtentTracker,
    after: ExtentTracker,
    id: ObjID,
    slot: u64,
    hold: bool,
)
    requires
        before.wf(),
        entered(before, after, id, slot, hold),
    ensures
        ({
            let (old_order, new_order) = (before.by_recency(), after.by_recency());
            &&& new_order.len() > 0
            &&& new_order[0] == (id, slot)
            &&& forall|p: int|
                0 <= p < old_order.len() && (#[trigger] old_order[p]).0 == id ==> {
                    &&& new_order == seq![old_order[p]] + old_order.take(p) + old_order.skip(p + 1)
                    &&& slot == old_order[p].1
                    &&& after.held() == before.held()
                }
            &&& before.slot_of(id) is None && old_order.len() < 1024 ==> new_order == seq![
                (id, slot),
            ] + old_order
            &&& before.slot_of(id) is None && old_order.len() == 1024 ==> new_order == seq![
                (id, slot),
            ] + old_order.take(1023)
            &&& before.slot_of(id) is None ==> after.held()[slot].runs().len() == 0
                && !before.held().dom().contains(slot)
            &&& old_order.len() <= 1024
            &&& new_order.len() <= 1024
            &&& after.holders(slot) == before.holders(slot) + if hold {
                1int
            } else {
                0
            }
        }),
{
    before.lemma_wf();
    let (old_order, new_order) = (before.by_recency(), after.by_recency());
    assert forall|p: int| 0 <= p < old_order.len() && (#[trigger] old_order[p]).0 == id implies {
        &&& new_order == seq![old_order[p]] + old_order.take(p) + old_order.skip(p + 1)
        &&& slot == old_order[p].1
        &&& after.held() == before.held()
    } by {
        lemma_lookup(old_order, id, p);
        assert(new_order =~= seq![old_order[p]] + old_order.take(p) + old_order.skip(p + 1));
    }
    if before.slot_of(id) is None {
        assert(!before.held().dom().contains(slot));
    } else {
        let p = position(old_order, id);
        assert(old_order[p].0 == id);
    }
}

/// Letting go of an entry takes one hold from it and none from another. The entry goes where that
/// was the last hold and its object is not tracked, and stays otherwise; the order of the objects
/// stays in any case.
pub proof fn lemma_letting_go(before: ExtentTracker, after: ExtentTracker, slot: u64, other: u64)
    requires
        let_go_of(before, after, slot),
        other != slot,
    ensures
        after.by_recency() == before.by_recency(),
        after.issued() == before.issued(),
        before.holders(slot) > 0 ==> after.holders(slot) == before.holders(slot) - 1,
        before.holders(slot) <= 0 ==> after.holders(slot) == before.holders(slot),
        after.holders(other) == before.holders(other),
        after.held().dom().contains(other) <==> before.held().dom().contains(other),
        before.held().dom().contains(other) ==> after.held()[other] == before.held()[other],
        after.held().dom().contains(slot) <==> before.held().dom().contains(slot) && (after.holders(
            slot,
        ) != 0 || before.attached(slot)),
{
}

/// Changing what is known of one object changes nothing of another one, nor their order.
pub proof fn lemma_one_object_changes(before: ExtentTracker, after: ExtentTracker, slot: u64, other: u64)
    requires
        same_but(before, after, slot),
        other != slot,
    ensures
        after.by_recency() == before.by_recency(),
        after.issued() == before.issued(),
        after.holders(slot) == before.holders(slot),
        after.holders(other) == before.holders(other),
        after.held().dom() == before.held().dom(),
        before.held().dom().contains(other) ==> after.held()[other] == before.held()[other],
{
}

} // verus!
