use object_store::extents::extent_map::{Extent, ExtentMap, MAX_EXTENTS_PER_OBJECT};
use object_store::extents::object::ObjectExtents;
use object_store::extents::push_device_page;
use object_store::extents::tracker::{ExtentTracker, MAX_TRACKED_OBJECTS};
use object_store::{DevicePage, MAYHEAP_LEN};

fn emit(map: &ExtentMap, start: u64, nr: u32, create: bool) -> Vec<DevicePage> {
    let mut out = mayheap::Vec::<DevicePage, MAYHEAP_LEN>::new();
    map.emit(start, nr, create, &mut out);
    out.iter().copied().collect()
}

fn runs(pages: &[DevicePage]) -> Vec<(Option<u64>, u32)> {
    pages
        .iter()
        .map(|p| match p {
            DevicePage::Run(start, len) => (Some(*start), *len),
            DevicePage::Hole(len) => (None, *len),
        })
        .collect()
}

#[test]
fn unknown_pages_stop_the_emit() {
    let mut map = ExtentMap::new(0);
    map.insert(0, Some(100), 4);
    // Only the first 4 of 8 pages are known.
    assert_eq!(runs(&emit(&map, 0, 8, false)), vec![(Some(100), 4)]);
}

#[test]
fn emit_starts_mid_extent() {
    let mut map = ExtentMap::new(0);
    map.insert(0, Some(100), 8);
    assert_eq!(runs(&emit(&map, 3, 2, false)), vec![(Some(103), 2)]);
}

#[test]
fn holes_serve_reads_but_not_allocation() {
    let mut map = ExtentMap::new(0);
    map.insert(0, Some(100), 2);
    map.insert(2, None, 2);
    map.insert(4, Some(200), 2);

    assert_eq!(
        runs(&emit(&map, 0, 6, false)),
        vec![(Some(100), 2), (None, 2), (Some(200), 2)]
    );
    // Under create the hole must be allocated, so the emit stops short of it.
    assert_eq!(runs(&emit(&map, 0, 6, true)), vec![(Some(100), 2)]);
}

#[test]
fn covers_agrees_with_emit() {
    let mut map = ExtentMap::new(0);
    map.insert(0, Some(100), 4);
    map.insert(4, None, 2);

    // Everything `emit` serves for a read, `covers` reports -- holes included, since a read
    // needs no block for one.
    assert!(map.covers(0, 6));
    assert!(map.covers(3, 2));
    assert!(!map.covers(0, 8));
    assert!(!map.covers(6, 1));
}

#[test]
fn contiguous_inserts_coalesce() {
    let mut map = ExtentMap::new(0);
    map.insert(0, Some(100), 4);
    map.insert(4, Some(104), 4);
    assert_eq!(map.nr_extents(), 1);
    assert_eq!(runs(&emit(&map, 0, 8, false)), vec![(Some(100), 8)]);

    // A discontiguous physical run stays separate.
    map.insert(8, Some(500), 4);
    assert_eq!(map.nr_extents(), 2);
}

#[test]
fn insert_fills_a_gap_between_neighbours() {
    let mut map = ExtentMap::new(0);
    map.insert(0, Some(100), 2);
    map.insert(4, Some(104), 2);
    map.insert(2, Some(102), 2);
    assert_eq!(map.nr_extents(), 1);
    assert_eq!(runs(&emit(&map, 0, 6, false)), vec![(Some(100), 6)]);
}

#[test]
fn overwrite_splits_the_straddling_extent() {
    let mut map = ExtentMap::new(0);
    map.insert(0, Some(100), 10);
    // A page-out allocating page 4 elsewhere must not leave the old mapping behind.
    map.insert(4, Some(900), 1);
    assert_eq!(
        runs(&emit(&map, 0, 10, false)),
        vec![(Some(100), 4), (Some(900), 1), (Some(105), 5)]
    );
}

#[test]
fn hole_overwritten_by_allocation() {
    let mut map = ExtentMap::new(0);
    map.insert(0, None, 8);
    map.insert(0, Some(300), 8);
    assert_eq!(runs(&emit(&map, 0, 8, true)), vec![(Some(300), 8)]);
}

#[test]
fn fragmentation_bound_clears_rather_than_grows() {
    let mut map = ExtentMap::new(0);
    // Deliberately discontiguous so nothing coalesces.
    for i in 0..(MAX_EXTENTS_PER_OBJECT as u64 + 8) {
        map.insert(i * 2, Some(i * 1000), 1);
    }
    assert!(map.nr_extents() <= MAX_EXTENTS_PER_OBJECT);
}

#[test]
fn stale_generation_reads_as_unknown() {
    let mut obj = ObjectExtents::new();
    let generation = obj.generation();
    obj.commit(generation, &[(0, Some(100), 4)]);

    let mut out = mayheap::Vec::<DevicePage, MAYHEAP_LEN>::new();
    assert_eq!(obj.emit(0, 4, false, &mut out).0, 4);

    obj.invalidate();
    let mut out = mayheap::Vec::<DevicePage, MAYHEAP_LEN>::new();
    assert_eq!(obj.emit(0, 4, false, &mut out).0, 0);
}

#[test]
fn commit_racing_invalidation_is_dropped() {
    let mut obj = ObjectExtents::new();
    // Walk snapshots the generation, then the object is invalidated under it.
    let generation = obj.generation();
    obj.invalidate();
    obj.commit(generation, &[(0, Some(100), 4)]);

    let mut out = mayheap::Vec::<DevicePage, MAYHEAP_LEN>::new();
    assert_eq!(obj.emit(0, 4, false, &mut out).0, 0);
}

#[test]
fn overflow_is_reported_and_forgets() {
    let mut map = ExtentMap::new(0);
    for i in 0..(MAX_EXTENTS_PER_OBJECT as u64) {
        assert!(!map.insert(i * 2, Some(i * 1000), 1));
    }
    assert_eq!(map.nr_extents(), MAX_EXTENTS_PER_OBJECT);
    assert!(!map.insert(0, Some(7), 0));
    assert!(map.covers(0, 1));
    assert!(map.insert(1000, Some(5), 1));
    assert_eq!(map.nr_extents(), 1);
    assert!(!map.covers(0, 1));
    assert!(map.covers(1000, 1));
}

#[test]
fn a_split_past_the_cap_starts_over() {
    let mut map = ExtentMap::new(0);
    map.insert(0, Some(1), 10);
    for i in 1..(MAX_EXTENTS_PER_OBJECT as u64 - 1) {
        map.insert(100 + i * 2, Some(i * 1000), 1);
    }
    assert_eq!(map.nr_extents(), MAX_EXTENTS_PER_OBJECT - 1);
    assert!(map.insert(4, None, 1));
    assert_eq!(map.nr_extents(), 1);
    assert_eq!(map.covering(4), Some((4, Extent { pblock: None, len: 1 })));
    assert_eq!(map.covering(3), None);
    assert_eq!(map.covering(102), None);
}

#[test]
fn a_split_up_to_the_cap_keeps_the_rest() {
    let mut map = ExtentMap::new(0);
    map.insert(0, Some(1), 10);
    for i in 1..(MAX_EXTENTS_PER_OBJECT as u64 - 2) {
        map.insert(100 + i * 2, Some(i * 1000), 1);
    }
    assert_eq!(map.nr_extents(), MAX_EXTENTS_PER_OBJECT - 2);
    assert!(!map.insert(4, None, 1));
    assert_eq!(map.nr_extents(), MAX_EXTENTS_PER_OBJECT);
    assert_eq!(map.covering(3), Some((0, Extent { pblock: Some(1), len: 4 })));
    assert_eq!(map.covering(5), Some((5, Extent { pblock: Some(6), len: 5 })));
}

#[test]
fn commits_stay_within_the_cap() {
    let mut obj = ObjectExtents::new();
    let mut learned = vec![(0, Some(1), 10)];
    for i in 1..(MAX_EXTENTS_PER_OBJECT as u64 - 1) {
        learned.push((100 + i * 2, Some(i * 1000), 1));
    }
    assert_eq!(obj.commit(0, &learned), 0);
    assert_eq!(obj.commit(0, &[(4, Some(77), 1)]), 1);
    assert!(obj.covers(4, 1));
    assert!(!obj.covers(3, 1));
}

#[test]
fn punch_trims_both_edges() {
    let mut map = ExtentMap::new(3);
    map.insert(10, Some(100), 10);
    map.insert(30, None, 5);
    map.punch(15, 32);
    assert_eq!(map.covering(14), Some((10, Extent { pblock: Some(100), len: 5 })));
    assert_eq!(map.covering(15), None);
    assert_eq!(map.covering(31), None);
    assert_eq!(map.covering(32), Some((32, Extent { pblock: None, len: 3 })));
    assert_eq!(map.covering(35), None);
    assert_eq!(map.generation(), 3);
    map.reset(4);
    assert_eq!(map.nr_extents(), 0);
    assert_eq!(map.generation(), 4);
}

#[test]
fn punch_of_nothing_splits_in_place() {
    let mut map = ExtentMap::new(0);
    map.insert(0, Some(100), 10);
    map.punch(4, 4);
    assert_eq!(map.nr_extents(), 2);
    assert_eq!(map.covering(3), Some((0, Extent { pblock: Some(100), len: 4 })));
    assert_eq!(map.covering(4), Some((4, Extent { pblock: Some(104), len: 6 })));
}

#[test]
fn lengths_that_do_not_fit_stay_apart() {
    let mut map = ExtentMap::new(0);
    map.insert(0, None, u32::MAX);
    map.insert(u32::MAX as u64, None, 5);
    assert_eq!(map.nr_extents(), 2);
    assert!(map.covers(u32::MAX as u64 - 2, 7));
}

#[test]
fn extents_continue_on_blocks() {
    let a = Extent { pblock: Some(10), len: 5 };
    assert!(a.continues(&Extent { pblock: Some(15), len: 1 }));
    assert!(!a.continues(&Extent { pblock: Some(16), len: 1 }));
    assert!(!a.continues(&Extent { pblock: None, len: 1 }));
    let hole = Extent { pblock: None, len: 5 };
    assert!(hole.continues(&Extent { pblock: None, len: 1 }));
}

#[test]
fn pushing_merges_into_the_last_run() {
    let mut out = mayheap::Vec::<DevicePage, MAYHEAP_LEN>::new();
    push_device_page(&mut out, DevicePage::Run(5, 2));
    push_device_page(&mut out, DevicePage::Run(7, 3));
    push_device_page(&mut out, DevicePage::Hole(1));
    push_device_page(&mut out, DevicePage::Hole(4));
    push_device_page(&mut out, DevicePage::Run(10, 1));
    assert_eq!(
        out.as_slice(),
        &[DevicePage::Run(5, 5), DevicePage::Hole(5), DevicePage::Run(10, 1)]
    );
}

#[test]
fn commit_counts_clears_and_restarts_after_invalidation() {
    let mut obj = ObjectExtents::new();
    let first: Vec<(u64, Option<u64>, u32)> =
        (0..65u64).map(|i| (i * 2, Some(i * 1000), 1)).collect();
    assert_eq!(obj.commit(0, &first), 1);
    obj.invalidate();
    assert_eq!(obj.generation(), 1);
    assert!(!obj.covers(0, 0));
    assert_eq!(obj.commit(1, &[]), 0);
    assert!(!obj.covers(0, 0));
    assert_eq!(obj.commit(1, &[(7, None, 2), (9, Some(4), 1)]), 0);
    let mut out = mayheap::Vec::<DevicePage, MAYHEAP_LEN>::new();
    assert_eq!(obj.emit(7, 5, false, &mut out), (3, true));
    assert_eq!(out.as_slice(), &[DevicePage::Hole(2), DevicePage::Run(4, 1)]);
}

#[test]
fn entries_are_created_once_and_peeks_create_none() {
    let mut tracker = ExtentTracker::new();
    assert!(tracker.peek(9).is_none());
    let (one, other) = (tracker.entry(9), tracker.entry(9));
    assert_eq!(tracker.commit(&one, 0, &[(3, Some(1), 2)]), 0);
    assert!(tracker.object(&other).unwrap().covers(3, 2));
    assert!(tracker.peek(9).unwrap().covers(3, 2));
    tracker.let_go(one);
    tracker.let_go(other);
    assert!(tracker.peek(9).unwrap().covers(3, 2));
    // The entry of one tracker is none of another one's.
    let stray = tracker.entry(9);
    assert!(ExtentTracker::new().object(&stray).is_none());
    assert_eq!(ExtentTracker::new().commit(&stray, 0, &[(0, Some(1), 1)]), 0);
}

/// Enters so many objects, and lets go of their entries.
fn enter(tracker: &mut ExtentTracker, ids: std::ops::Range<u128>) {
    for id in ids {
        let entry = tracker.entry(id);
        tracker.let_go(entry);
    }
}

#[test]
fn the_least_recently_used_entry_is_dropped() {
    let mut tracker = ExtentTracker::new();
    let second = tracker.entry(1);
    assert_eq!(tracker.commit(&second, 0, &[(0, Some(7), 1)]), 0);
    tracker.let_go(second);
    enter(&mut tracker, 2..MAX_TRACKED_OBJECTS as u128 + 1);
    // Looking does not make an entry recently used, entering does.
    assert!(tracker.peek(1).unwrap().covers(0, 1));
    enter(&mut tracker, 2..3);
    enter(&mut tracker, 5000..5001);
    assert!(tracker.peek(1).is_none());
    assert!(tracker.peek(2).is_some());
    assert!(tracker.peek(5000).is_some());
    enter(&mut tracker, 1..2);
    assert!(tracker.peek(3).is_none());
    assert!(!tracker.peek(1).unwrap().covers(0, 1));
}

#[test]
fn a_holder_keeps_an_entry_that_lost_its_place() {
    let mut tracker = ExtentTracker::new();
    let held = tracker.entry(1);
    assert_eq!(tracker.commit(&held, 0, &[(0, Some(7), 1)]), 0);
    enter(&mut tracker, 2..MAX_TRACKED_OBJECTS as u128 + 2);
    assert!(tracker.peek(1).is_none());
    // It can still be read and filled, and what it throws away is counted.
    assert!(tracker.object(&held).unwrap().covers(0, 1));
    let scattered: Vec<(u64, Option<u64>, u32)> =
        (1..65).map(|i| (i * 2, Some(i * 1000), 1)).collect();
    assert_eq!(tracker.commit(&held, 0, &scattered), 1);
    assert!(tracker.object(&held).unwrap().covers(128, 1));
    // But nothing else reads it: the entry that takes its place starts empty.
    let again = tracker.entry(1);
    assert!(!tracker.object(&again).unwrap().covers(128, 1));
    assert_eq!(tracker.commit(&again, 0, &[(5, None, 1)]), 0);
    assert!(!tracker.object(&held).unwrap().covers(5, 1));
    tracker.let_go(held);
    assert!(tracker.object(&again).unwrap().covers(5, 1));
}

#[test]
fn a_guard_invalidates_when_released() {
    let mut tracker = ExtentTracker::new();
    let entry = tracker.entry(4);
    assert_eq!(tracker.commit(&entry, 0, &[(0, Some(50), 8)]), 0);
    assert!(tracker.object(&entry).unwrap().covers(0, 8));
    let guard = tracker.invalidate_on_drop(4);
    assert!(tracker.object(&entry).unwrap().covers(0, 8));
    guard.release(&mut tracker);
    assert!(!tracker.object(&entry).unwrap().covers(0, 8));
    assert_eq!(tracker.object(&entry).unwrap().generation(), 1);
    tracker.invalidate(&entry);
    assert_eq!(tracker.object(&entry).unwrap().generation(), 2);
}

#[test]
fn a_guard_invalidates_the_entry_that_it_was_made_for() {
    let mut tracker = ExtentTracker::new();
    let guard = tracker.invalidate_on_drop(1);
    let held = tracker.entry(1);
    enter(&mut tracker, 2..MAX_TRACKED_OBJECTS as u128 + 2);
    enter(&mut tracker, 1..2);
    guard.release(&mut tracker);
    assert_eq!(tracker.object(&held).unwrap().generation(), 1);
    assert_eq!(tracker.peek(1).unwrap().generation(), 0);
}
