use object_store::ext4::meters::{BdStats, ExtentStats, Gauge, PageStats};
use object_store::ext4::stats::{bump_max, diag_requested, power_of_two, FsLockStats, FsSite};

#[test]
fn powers_of_two() {
    for n in 0..5000u64 {
        assert_eq!(power_of_two(n), n.is_power_of_two());
    }
    assert!(power_of_two(1 << 63));
    assert!(!power_of_two(u64::MAX));
}

#[test]
fn diagnostics_are_asked_for_by_class() {
    assert!(diag_requested(b"pager"));
    assert!(diag_requested(b"all"));
    assert!(diag_requested(b"naming,pager"));
    assert!(diag_requested(b"all,naming"));
    assert!(diag_requested(b",,pager,"));
    assert!(!diag_requested(b""));
    assert!(!diag_requested(b"pagers"));
    assert!(!diag_requested(b"naming, pager"));
    assert!(!diag_requested(b"ALL"));
}

#[test]
fn high_water_marks() {
    let mut max = 5;
    bump_max(&mut max, 4);
    assert_eq!(max, 5);
    bump_max(&mut max, 6);
    assert_eq!(max, 6);
}

#[test]
fn the_lock_is_held_between_acquire_and_release() {
    let mut stats = FsLockStats::new();
    assert!(!stats.is_held());
    assert!(stats.acquire(false, 10));
    assert!(stats.is_held());
    stats.release(FsSite::Meta, 7);
    assert!(!stats.is_held());
}

#[test]
fn reports_are_due_at_a_cadence() {
    let mut stats = FsLockStats::new();
    let mut due = Vec::new();
    for n in 1..=4100u64 {
        if stats.acquire(false, 0) {
            due.push(n);
        }
    }
    assert_eq!(due, vec![1, 2, 4, 8, 16, 32, 64, 128, 256, 512, 1024, 2048, 4096]);
    for n in 4101..=6200u64 {
        assert_eq!(stats.acquire(false, 0), n == 6144);
    }
}

#[test]
fn the_lock_is_reported() {
    let mut stats = FsLockStats::new();
    let (lock, sites) = stats.report();
    assert_eq!(
        lock,
        "FSLOCK: 0 acquires, 0 found it held (0%); hold mean 0 us max 0 us; wait mean 0 us max 0 us"
    );
    assert_eq!(sites, "FSLOCK-SITES: ino-cache 0 hit / 0 miss (0% miss)");

    stats.acquire(false, 1_000);
    stats.acquire(true, 9_000);
    stats.acquire(true, 2_000);
    stats.release(FsSite::Walk, 4_000_000);
    stats.release(FsSite::Walk, 2_000_000);
    stats.release(FsSite::ExtRename, 3_500);
    stats.note_bd_read(Some(FsSite::Walk));
    stats.note_bd_read(Some(FsSite::Walk));
    stats.note_bd_read(None);
    stats.note_ino_lookup(true);
    stats.note_ino_lookup(true);
    stats.note_ino_lookup(false);
    let (lock, sites) = stats.report();
    assert_eq!(
        lock,
        "FSLOCK: 3 acquires, 2 found it held (66%); hold mean 2001 us max 4000 us; wait mean 4 us max 9 us"
    );
    assert_eq!(
        sites,
        "FSLOCK-SITES: walk n=2 mean=3000us max=4000us bd-reads=2; ext-rename n=1 mean=3us max=3us bd-reads=0; ino-cache 2 hit / 1 miss (33% miss)"
    );
}

#[test]
fn every_site_has_a_name() {
    let mut stats = FsLockStats::new();
    let sites = [
        (FsSite::Walk, "walk"),
        (FsSite::PageOut, "page-out"),
        (FsSite::ReadWrite, "read/write"),
        (FsSite::Meta, "meta"),
        (FsSite::External, "ext-open"),
        (FsSite::ExtReaddir, "ext-readdir"),
        (FsSite::ExtUnlink, "ext-unlink"),
        (FsSite::ExtRename, "ext-rename"),
    ];
    let mut expected = String::from("FSLOCK-SITES:");
    for (i, (site, name)) in sites.iter().enumerate() {
        assert_eq!(site.index(), i);
        stats.release(*site, 0);
        expected += &format!(" {} n=1 mean=0us max=0us bd-reads=0;", name);
    }
    expected += " ino-cache 0 hit / 0 miss (0% miss)";
    assert_eq!(stats.report().1, expected);
}

#[test]
fn paging_is_metered() {
    let mut stats = PageStats::new();
    assert_eq!(
        stats.record("page_in", 2_000_000, 999_999).unwrap(),
        "PAGESTATS page_in: 1 calls, collect 2ms, io 0ms"
    );
    assert_eq!(
        stats.record("page_in", 1_500_000, 1).unwrap(),
        "PAGESTATS page_in: 2 calls, collect 3ms, io 1ms"
    );
    assert!(stats.record("page_in", 0, 0).is_none());
    assert!(stats.record("page_in", 0, 0).is_some());
}

#[test]
fn extents_are_metered() {
    let mut stats = ExtentStats::new();
    assert_eq!(stats.in_flight(), 1);
    assert_eq!(stats.in_flight(), 2);
    stats.inflight.leave();
    assert_eq!(stats.inflight, Gauge { now: 1, max: 2 });
    assert_eq!(stats.cache_served(), 1);
    stats.note_walk(true);
    stats.note_walk(false);
    stats.note_walked(21, 22);
    stats.note_readdir(30, 31, 32);
    assert!(stats.record(false, 5, 6, 0, true, 0).is_some());
    assert!(stats.record(true, 7, 8, 0, false, 0).is_some());
    assert!(stats.record(false, 1, 0, 9, true, 0).is_none());
    assert_eq!(
        stats.record(false, 0, 0, 0, false, 44).unwrap(),
        "EXTENTSTATS: 4 calls (2 warm-object), 21 lookups; read pages 6 hit / 6 walked / 9 past-eof / 22 walked-ahead in 1 calls; create pages 7 hit / 8 walked; concurrency max 2 in flight, max 1 fs-lock-free; map overflow-clears 44; walk entered 2; readdir 1 calls, 31 dirents iterated, 32 returned, 30 skipped"
    );
}

#[test]
fn the_block_device_is_metered() {
    let mut stats = BdStats::new();
    stats.note_read();
    stats.note_write(0, 512);
    stats.note_write(4095, 512);
    stats.note_write(4096, 1024);
    assert_eq!((stats.reads, stats.writes), (1, 3));
    assert_eq!((stats.write_bytes, stats.sb_writes), (2048, 2));
    assert_eq!(stats.record_flush(10, 1, 2), Some(1));
    assert_eq!(stats.record_flush(10, 1, 2), Some(2));
    assert_eq!(stats.record_flush(10, 1, 2), None);
    assert_eq!((stats.flush_ns, stats.flush_reads, stats.flush_writes), (30, 3, 6));
}
