use object_store::ext4::external::FileFlags;
use object_store::ext4::store::{
    block_bytes, blockdev_name, bytes_to_blocks, device_blocks, mtime_to_set, page_out_end,
    page_out_flushes, page_out_size, read_progress, reported_links, reported_mtime, write_needs_backing,
    BlockPlan, InodeStat, ObjectOpen,
};
use object_store::ext4::paging::{ObjectPaging, PagingStep};
use object_store::ext4::walk::{
    learn_end, page_to_block, read_run, read_single, BlockWalk, Found, WalkStep, BLOCKS_PER_LOCK,
};
use object_store::extents::tracker::MAX_TRACKED_OBJECTS;
use object_store::{DevicePage, ErrorKind, Ext4Store, PageRequest, ProbeMiss, MAYHEAP_LEN};

fn store() -> Ext4Store {
    Ext4Store::new(4096).unwrap()
}

type Pages = mayheap::Vec<DevicePage, MAYHEAP_LEN>;

/// Answers a request from a block map of runs `(first page, first block or 0, pages)`.
fn get_disk_blocks(
    store: &mut Ext4Store,
    id: u128,
    start: u64,
    nr: u32,
    create: bool,
    map: &[(u64, u64, u32)],
    out: &mut Pages,
) -> (u64, Result<(), ErrorKind>) {
    let plan = store.begin_disk_blocks(id, start, nr, create, false, out);
    let mut walk = match plan {
        BlockPlan::Walk(walk) => walk,
        _ => return (0, Ok(())),
    };
    let res = loop {
        match walk.next() {
            WalkStep::Yield => {}
            WalkStep::Done => break Ok(()),
            WalkStep::Lookup { block, count } => {
                let run = map
                    .iter()
                    .find(|r| r.0 <= block as u64 && (block as u64) < r.0 + r.2 as u64);
                let answer = run.map(|r| {
                    let skip = block as u64 - r.0;
                    let first = if r.1 == 0 { 0 } else { r.1 + skip };
                    (first, count.min((r.2 as u64 - skip) as u32))
                });
                let (pblock, nr) = match read_run(answer) {
                    Found::Run(pblock, nr) => (pblock, nr),
                    Found::AskSingle => read_single(0),
                };
                if let Err(e) = walk.record(pblock, nr, out) {
                    break Err(e);
                }
            }
        }
    };
    let lookups = walk.walk.lookups;
    store.finish_disk_blocks(walk);
    (lookups, res)
}

#[test]
fn only_page_sized_blocks_mount() {
    assert_eq!(Ext4Store::new(1024).unwrap_err(), ErrorKind::Unsupported);
    assert!(Ext4Store::new(4096).is_ok());
}

#[test]
fn lengths_are_cached() {
    let mut s = store();
    assert!(!s.len_is_cached(7));
    assert_eq!(s.len_from_cache(7), None);
    assert_eq!(s.len_answered(7, Ok(10), false), Ok(10));
    assert!(s.len_is_cached(7));
    assert_eq!(s.len_from_cache(7), Some(Ok(10)));
    s.set_absent_in_cache(7);
    assert_eq!(s.get_len_from_cache(7), Some(None));
    assert_eq!(s.len_from_cache(7), Some(Err(ErrorKind::NotFound)));
    s.invalidate_len(7);
    assert_eq!(s.get_len_from_cache(7), None);
}

#[test]
fn only_a_confirmed_internal_absence_is_cached() {
    let mut s = store();
    assert_eq!(s.len_answered(1, Err(ErrorKind::Other), false), Err(ErrorKind::Other));
    assert!(!s.len_is_cached(1));
    assert_eq!(s.len_answered(1, Err(ErrorKind::NotFound), true), Err(ErrorKind::NotFound));
    assert!(!s.len_is_cached(1));
    assert_eq!(s.len_answered(1, Err(ErrorKind::NotFound), false), Err(ErrorKind::NotFound));
    assert_eq!(s.len_from_cache(1), Some(Err(ErrorKind::NotFound)));
}

#[test]
fn stats_prefer_the_cached_length() {
    let mut s = store();
    let inode = InodeStat { size: 99, mtime: 0, links: 0 };
    assert_eq!(s.stat_begin(3), Ok(None));
    assert_eq!(s.stat_finish(3, None, Err(ErrorKind::Other)), Err(ErrorKind::Other));
    assert_eq!(s.stat_finish(3, None, Ok(inode)), Ok((99, 1, 1)));
    assert_eq!(s.stat_begin(3), Ok(Some(99)));
    let inode = InodeStat { size: 5, mtime: 77, links: 3 };
    assert_eq!(s.stat_finish(3, Some(99), Ok(inode)), Ok((99, 77, 3)));
    assert_eq!(s.stat_finish(3, Some(99), Err(ErrorKind::Other)), Ok((99, 1, 1)));
    s.set_absent_in_cache(3);
    assert_eq!(s.stat_begin(3), Err(ErrorKind::NotFound));
}

#[test]
fn ids_have_paths() {
    let s = store();
    let id = 0xab00_0000_0000_0000_0000_0000_0000_0012u128;
    let (dir, file) = s.get_id_path(id);
    assert_eq!(dir, "ids/ab");
    assert_eq!(file, "ids/ab/ab000000000000000000000000000012");
    let (dir, file) = s.get_id_path(0x1f);
    assert_eq!(dir, "ids/0");
    assert_eq!(file, "ids/0/1f");
}

#[test]
fn opens_go_by_inode_where_they_can() {
    let mut s = store();
    let plain = FileFlags { read_write: true, create: false, truncate: false };
    let fresh = FileFlags { read_write: true, create: true, truncate: true };
    match s.open_plan(0x1f, false, None) {
        ObjectOpen::Path { dir, path, flags } => {
            assert_eq!(dir, None);
            assert_eq!(path, "ids/0/1f");
            assert_eq!(flags, plain);
        }
        _ => panic!("expected a path"),
    }
    s.insert_ino_cache(0x1f, 40);
    assert_eq!(s.lookup_ino_cache(0x1f), Some(40));
    assert!(matches!(s.open_plan(0x1f, false, None), ObjectOpen::CachedInode(40)));
    match s.open_plan(0x1f, true, None) {
        ObjectOpen::Path { dir, path, flags } => {
            assert_eq!(dir.unwrap(), "ids/0");
            assert_eq!(path, "ids/0/1f");
            assert_eq!(flags, fresh);
        }
        _ => panic!("expected a path"),
    }
    match s.open_plan(0x20, true, Some(12)) {
        ObjectOpen::Inode(ino, flags) => {
            assert_eq!(ino, 12);
            assert_eq!(flags, fresh);
        }
        _ => panic!("expected an inode"),
    }
    s.remove_ino_cache(0x1f);
    assert_eq!(s.lookup_ino_cache(0x1f), None);
}

#[test]
fn deleting_forgets() {
    let mut s = store();
    s.insert_ino_cache(0x1f, 40);
    s.set_len_in_cache(0x1f, 5);
    assert_eq!(s.begin_delete(0x1f, true).unwrap_err(), ErrorKind::Unsupported);
    assert_eq!(s.lookup_ino_cache(0x1f), Some(40));
    assert_eq!(s.begin_delete(0x1f, false).unwrap(), "ids/0/1f");
    assert_eq!(s.lookup_ino_cache(0x1f), None);
    assert!(!s.len_is_cached(0x1f));
}

#[test]
fn a_walk_fills_in_and_the_next_request_is_served() {
    let mut s = store();
    s.set_len_in_cache(5, 4096 * 40);
    let map = [(0, 100, 10), (10, 0, 6), (16, 500, 24)];
    let mut out = Pages::new();
    assert_eq!(s.page_in_would_block(5, 0, 20), ProbeMiss::NoExtents);
    let (lookups, res) = get_disk_blocks(&mut s, 5, 0, 20, false, &map, &mut out);
    assert_eq!(res, Ok(()));
    assert_eq!(lookups, 3);
    assert_eq!(
        out.as_slice(),
        &[DevicePage::Run(100, 10), DevicePage::Hole(6), DevicePage::Run(500, 4)]
    );
    // The whole of the last run was learned, and the next range is a hit.
    assert_eq!(s.page_in_would_block(5, 0, 40), ProbeMiss::Cached);
    assert_eq!(s.page_in_would_block(5, 0, 41), ProbeMiss::Partial);
    let mut again = Pages::new();
    let plan = s.begin_disk_blocks(5, 12, 28, false, false, &mut again);
    assert!(matches!(plan, BlockPlan::Served { warm: true }));
    assert_eq!(again.as_slice(), &[DevicePage::Hole(4), DevicePage::Run(500, 24)]);
}

#[test]
fn no_pages_need_nothing() {
    let mut s = store();
    let mut out = Pages::new();
    let plan = s.begin_disk_blocks(5, 12, 0, true, false, &mut out);
    assert!(matches!(plan, BlockPlan::Empty));
    assert_eq!(s.page_in_would_block(5, 0, 1), ProbeMiss::Len);
}

#[test]
fn far_past_the_end_is_a_hole() {
    let mut s = store();
    s.set_len_in_cache(5, 4096);
    let mut out = Pages::new();
    let plan = s.begin_disk_blocks(5, 9, 65, false, false, &mut out);
    assert!(matches!(plan, BlockPlan::PastEof { cached: 0, pages: 65, warm: false }));
    assert_eq!(out.as_slice(), &[DevicePage::Hole(65)]);
    let mut out = Pages::new();
    assert!(matches!(s.begin_disk_blocks(5, 9, 64, false, false, &mut out), BlockPlan::Walk(_)));
    assert!(matches!(s.begin_disk_blocks(5, 8, 65, false, false, &mut out), BlockPlan::Walk(_)));
    assert!(matches!(s.begin_disk_blocks(5, 9, 65, true, false, &mut out), BlockPlan::Walk(_)));
}

#[test]
fn a_hole_under_create_is_an_error_and_what_was_learned_stays() {
    let mut s = store();
    let map = [(0, 100, 3)];
    let mut out = Pages::new();
    let (_, res) = get_disk_blocks(&mut s, 5, 0, 5, true, &map, &mut out);
    assert_eq!(res, Err(ErrorKind::Other));
    s.set_len_in_cache(5, 1);
    assert_eq!(s.page_in_would_block(5, 0, 3), ProbeMiss::Cached);
    assert_eq!(s.page_in_would_block(5, 0, 4), ProbeMiss::Partial);
}

#[test]
fn a_mutation_during_a_walk_drops_what_it_learned() {
    let mut s = store();
    s.set_len_in_cache(5, 4096 * 8);
    let mut out = Pages::new();
    let mut walk = match s.begin_disk_blocks(5, 0, 8, false, false, &mut out) {
        BlockPlan::Walk(walk) => walk,
        _ => panic!("expected a walk"),
    };
    let guard = s.begin_mutation(5);
    walk.record(Some(100), 8, &mut out).unwrap();
    s.end_mutation(guard);
    assert_eq!(s.finish_disk_blocks(walk), 0);
    assert_eq!(s.page_in_would_block(5, 0, 8), ProbeMiss::Partial);
}

#[test]
fn a_walk_that_outlasts_its_place_is_counted_and_not_read() {
    let mut s = store();
    s.set_len_in_cache(5, 4096 * 200);
    let mut out = Pages::new();
    let mut walk = match s.begin_disk_blocks(5, 0, 130, false, false, &mut out) {
        BlockPlan::Walk(walk) => walk,
        _ => panic!("expected a walk"),
    };
    for id in 100..100 + MAX_TRACKED_OBJECTS as u128 {
        let mut none = Pages::new();
        get_disk_blocks(&mut s, id, 0, 1, false, &[(0, 7, 1)], &mut none).1.unwrap();
    }
    assert_eq!(s.page_in_would_block(5, 0, 1), ProbeMiss::NoExtents);
    for i in 0..65u64 {
        walk.record(Some(1000 + i * 10), 1, &mut out).unwrap();
        walk.record(None, 1, &mut out).unwrap();
    }
    assert_eq!(s.finish_disk_blocks(walk), 2);
    assert_eq!(s.page_in_would_block(5, 0, 1), ProbeMiss::NoExtents);
}

#[test]
fn an_answer_needs_room_only_where_it_joins() {
    let mut out = Pages::new();
    let _ = out.push(DevicePage::Hole(u32::MAX));
    let mut learned = mayheap::Vec::new();
    let mut walk = BlockWalk::begin(0, 8, false, false, None);
    walk.record(Some(100), 8, &mut learned, &mut out).unwrap();
    assert_eq!(out.as_slice(), &[DevicePage::Hole(u32::MAX), DevicePage::Run(100, 8)]);
    let mut s = store();
    let plan = s.begin_disk_blocks(5, u64::MAX, 0, false, false, &mut out);
    assert!(matches!(plan, BlockPlan::Empty));
}

#[test]
fn opening_with_truncation_forgets_extents() {
    let mut s = store();
    s.set_len_in_cache(5, 4096 * 8);
    let mut out = Pages::new();
    get_disk_blocks(&mut s, 5, 0, 8, false, &[(0, 100, 8)], &mut out).1.unwrap();
    assert_eq!(s.page_in_would_block(5, 0, 8), ProbeMiss::Cached);
    s.invalidate_extents(5);
    assert_eq!(s.page_in_would_block(5, 0, 8), ProbeMiss::Partial);
}

#[test]
fn external_files_have_no_null_page() {
    assert_eq!(page_to_block(false, 7), 7);
    assert_eq!(page_to_block(true, 7), 6);
    assert_eq!(page_to_block(true, 0), 0);
}

#[test]
fn walks_yield_and_ask_ahead() {
    let mut walk = BlockWalk::begin(3, 10, false, true, None);
    assert_eq!(walk.next(), WalkStep::Lookup { block: 2, count: 7 + 4096 });
    let mut walk = BlockWalk::begin(3, 10, true, false, None);
    assert_eq!(walk.next(), WalkStep::Lookup { block: 3, count: 7 });
    let mut walk = BlockWalk::begin(0, 1000, true, false, Some(Some(0)));
    for _ in 0..BLOCKS_PER_LOCK {
        assert!(matches!(walk.next(), WalkStep::Lookup { .. }));
    }
    assert_eq!(walk.next(), WalkStep::Yield);
    assert!(matches!(walk.next(), WalkStep::Lookup { .. }));
    assert_eq!(walk.lookups, 101);
    assert_eq!(walk.walked_ahead(), 0);
    let done = BlockWalk { page: 1005, ..walk };
    assert_eq!(done.walked_ahead(), 0);
    let ahead = BlockWalk { learn_end: 1010, ..done };
    assert_eq!(ahead.walked_ahead(), 5);
}

#[test]
fn learning_stops_at_the_end_of_the_file() {
    assert_eq!(learn_end(false, 10, Some(Some(4096 * 100)), 0), 10);
    assert_eq!(learn_end(false, 10, Some(Some(4096 * 100)), 5), 15);
    assert_eq!(learn_end(false, 10, Some(Some(4096 * 12 + 1)), 5), 13);
    assert_eq!(learn_end(false, 10, Some(Some(4096 * 3)), 5), 10);
    assert_eq!(learn_end(false, 10, Some(None), 5), 10);
    assert_eq!(learn_end(false, 10, None, 5), 10);
    assert_eq!(learn_end(true, 10, Some(Some(4096 * 100)), 5), 10);
}

#[test]
fn lookups_are_read() {
    assert_eq!(read_run(Some((5, 3))), Found::Run(Some(5), 3));
    assert_eq!(read_run(Some((0, 3))), Found::Run(None, 3));
    assert_eq!(read_run(Some((5, 0))), Found::AskSingle);
    assert_eq!(read_run(None), Found::AskSingle);
    assert_eq!(read_single(0), (None, 1));
    assert_eq!(read_single(9), (Some(9), 1));
}

#[test]
fn paging_out_extends_a_file() {
    let reqs = [PageRequest::new(3, 2), PageRequest::new(1, 1)];
    assert_eq!(page_out_end(Some(77), &reqs, false), Some(77));
    assert_eq!(page_out_end(None, &reqs, false), Some(5 * 4096));
    assert_eq!(page_out_end(None, &reqs, true), Some(4 * 4096));
    assert_eq!(page_out_end(None, &[], false), None);
    assert_eq!(page_out_size(Some(100), 100), None);
    assert_eq!(page_out_size(None, 0), None);
    assert_eq!(page_out_size(Some(101), 100), Some(101));
    assert!(page_out_flushes(true));
    assert!(!page_out_flushes(false));
}

#[test]
fn times_and_links_are_floored() {
    assert_eq!(reported_mtime(None), 0);
    assert_eq!(reported_mtime(Some(0)), 1);
    assert_eq!(reported_mtime(Some(9)), 9);
    assert_eq!(mtime_to_set(false, 9), Err(ErrorKind::Unsupported));
    assert_eq!(mtime_to_set(true, 0), Ok(1));
    assert_eq!(reported_links(None), 1);
    assert_eq!(reported_links(Some(0)), 1);
    assert_eq!(reported_links(Some(4)), 4);
}

#[test]
fn reading_and_writing() {
    assert!(write_needs_backing(5, 4));
    assert!(!write_needs_backing(4, 4));
    assert_eq!(read_progress(3, 2, 10), (5, true));
    assert_eq!(read_progress(3, 7, 10), (10, false));
    assert_eq!(read_progress(3, 0, 10), (3, false));
}

#[test]
fn block_device_arithmetic() {
    assert_eq!(device_blocks(4096 + 511), (8, 8));
    assert_eq!(block_bytes(3, 2), (1536, 1024));
    assert_eq!(bytes_to_blocks(1535), 2);
    assert_eq!(blockdev_name(0), "blockdev-0");
    assert_eq!(blockdev_name(1907), "blockdev-1907");
}

#[test]
fn every_request_is_looked_up_before_any_is_moved() {
    let steps = |paging: ObjectPaging| {
        let mut steps = Vec::new();
        let mut step = paging.first();
        while step != PagingStep::Done {
            steps.push(step);
            step = paging.after(step);
        }
        steps
    };
    let two = vec![
        PagingStep::Lookup(0),
        PagingStep::Lookup(1),
        PagingStep::Transfer(0),
        PagingStep::Transfer(1),
    ];
    assert_eq!(steps(ObjectPaging::paging_in(2)), two);
    assert_eq!(steps(ObjectPaging::paging_out(2, false)), two);
    let mut flushed = two;
    flushed.push(PagingStep::Flush);
    assert_eq!(steps(ObjectPaging::paging_out(2, true)), flushed);
    assert_eq!(steps(ObjectPaging::paging_in(0)), vec![]);
    assert_eq!(steps(ObjectPaging::paging_out(0, true)), vec![PagingStep::Flush]);
}

#[test]
fn paging_out_covers_every_page() {
    for external in [false, true] {
        for (start, nr) in [(1i64, 1u32), (3, 4), (7, 9)] {
            let reqs = [PageRequest::new(start, nr), PageRequest::new(2, 1)];
            let end = page_out_end(None, &reqs, external).unwrap();
            for page in start as u64..start as u64 + nr as u64 {
                assert!((page_to_block(external, page) + 1) * 4096 <= end);
            }
        }
    }
}

#[test]
fn probes_of_what_is_unknown_need_no_end() {
    let mut s = store();
    assert!(s.has_slots());
    assert_eq!(s.page_in_would_block(5, u64::MAX, 9), ProbeMiss::Len);
    s.set_len_in_cache(5, 4096);
    assert_eq!(s.page_in_would_block(5, u64::MAX, 9), ProbeMiss::NoExtents);
    let mut out = Pages::new();
    get_disk_blocks(&mut s, 5, 0, 1, false, &[(0, 100, 1)], &mut out).1.unwrap();
    s.invalidate_extents(5);
    assert_eq!(s.page_in_would_block(5, u64::MAX, 9), ProbeMiss::Partial);
}
