use object_store::paged_object_store::config_id::{decode_config_id, encode_config_id};
use object_store::paged_object_store::request::{requested_pages, Step, Transfer};
use object_store::{
    DevicePage, ErrorKind, ExternalOpenFlags, PageRequest, PagedPhysMem, PhysRange, MAYHEAP_LEN,
    PAGE_SIZE,
};

#[test]
fn test_try_extend_holes() {
    let mut hole1 = DevicePage::Hole(10);
    let hole2 = DevicePage::Hole(5);

    assert!(hole1.try_extend(&hole2));
    match hole1 {
        DevicePage::Hole(len) => assert_eq!(len, 15),
        _ => panic!("Expected Hole"),
    }
}

#[test]
fn test_try_extend_consecutive_runs() {
    let mut run1 = DevicePage::Run(100, 10);
    let run2 = DevicePage::Run(110, 5);

    assert!(run1.try_extend(&run2));
    match run1 {
        DevicePage::Run(start, len) => {
            assert_eq!(start, 100);
            assert_eq!(len, 15);
        }
        _ => panic!("Expected Run"),
    }
}

#[test]
fn test_try_extend_non_consecutive_runs() {
    let mut run1 = DevicePage::Run(100, 10);
    let run2 = DevicePage::Run(120, 5);

    assert!(!run1.try_extend(&run2));
    match run1 {
        DevicePage::Run(start, len) => {
            assert_eq!(start, 100);
            assert_eq!(len, 10); // Should remain unchanged
        }
        _ => panic!("Expected Run"),
    }
}

#[test]
fn test_try_extend_mixed_types() {
    let mut hole = DevicePage::Hole(10);
    let run = DevicePage::Run(100, 5);

    assert!(!hole.try_extend(&run));
    match hole {
        DevicePage::Hole(len) => assert_eq!(len, 10), // Should remain unchanged
        _ => panic!("Expected Hole"),
    }

    let mut run = DevicePage::Run(100, 10);
    let hole = DevicePage::Hole(5);

    assert!(!run.try_extend(&hole));
    match run {
        DevicePage::Run(start, len) => {
            assert_eq!(start, 100);
            assert_eq!(len, 10); // Should remain unchanged
        }
        _ => panic!("Expected Run"),
    }
}

struct MockDevice {
    /// Total pages phys_addrs hands out, regardless of how many were asked for.
    alloc_pages: usize,
    /// Pages per phys_list entry.
    alloc_chunk: usize,
    /// If set, what a transfer reports instead of the actually-available count.
    forced_tfer: Option<usize>,
}

impl MockDevice {
    fn phys_addrs(&self, phys_list: &mut mayheap::Vec<PagedPhysMem, MAYHEAP_LEN>) {
        let mut done = 0;
        while done < self.alloc_pages {
            let n = self.alloc_chunk.min(self.alloc_pages - done);
            let start = (done * PAGE_SIZE) as u64;
            phys_list
                .push(PagedPhysMem::new(PhysRange {
                    start,
                    end: start + (n * PAGE_SIZE) as u64,
                }))
                .unwrap();
            done += n;
        }
    }

    fn transfer(&self, nr_pages: usize, list: &[PagedPhysMem], inner_cursor: usize) -> usize {
        if let Some(forced) = self.forced_tfer {
            return forced;
        }
        assert!(
            !list.is_empty(),
            "transfer issued with an exhausted phys list"
        );
        let avail = list.iter().fold(0usize, |acc, p| acc + p.nr_pages()) - inner_cursor;
        nr_pages.min(avail)
    }
}

fn setup_phys(req: &mut PageRequest, pages: &[DevicePage], dev: &MockDevice) {
    let nr = requested_pages(pages);
    dev.phys_addrs(&mut req.phys_list);
    req.phys_allocated(nr);
}

fn transfer(
    req: &mut PageRequest,
    t: &mut Transfer,
    pages: &[DevicePage],
    dev: &MockDevice,
) -> Result<(), ErrorKind> {
    loop {
        match req.step(t, pages) {
            Step::Continue => {}
            Step::Move { start: _, nr_pages } => {
                let list = &req.phys_list.as_slice()[t.cursor..];
                let moved = dev.transfer(nr_pages, list, t.inner_cursor);
                req.record(t, moved)?;
            }
            Step::Done => return Ok(()),
        }
    }
}

fn page_in(
    req: &mut PageRequest,
    pages: &[DevicePage],
    dev: &MockDevice,
) -> Result<(usize, Vec<PhysRange>), ErrorKind> {
    setup_phys(req, pages, dev);
    let mut t = match req.begin() {
        Some(t) => t,
        None => return Ok((req.nr_pages as usize, Vec::new())),
    };
    transfer(req, &mut t, pages, dev)?;
    let freed = req.finish_page_in(&t);
    Ok((t.tfer_count, freed))
}

fn page_out(
    req: &mut PageRequest,
    pages: &[DevicePage],
    dev: &MockDevice,
) -> Result<usize, ErrorKind> {
    let mut t = match req.begin() {
        Some(t) => t,
        None => return Ok(req.nr_pages as usize),
    };
    transfer(req, &mut t, pages, dev)?;
    Ok(t.tfer_count)
}

/// A run longer than the phys memory we got must stop at the end of the list rather than
/// re-issuing transfers against an empty slice.
#[test]
fn test_page_in_short_phys_alloc() {
    let dev = MockDevice {
        alloc_pages: 4,
        alloc_chunk: 4,
        forced_tfer: None,
    };
    let mut req = PageRequest::new(0, 8);
    let (n, _) = page_in(&mut req, &[DevicePage::Run(100, 8)], &dev).unwrap();
    assert_eq!(n, 4);
    assert_eq!(req.nr_pages, 4);
}

#[test]
fn test_page_out_short_phys_alloc() {
    let dev = MockDevice {
        alloc_pages: 4,
        alloc_chunk: 4,
        forced_tfer: None,
    };
    let mut req = PageRequest::new(0, 8);
    setup_phys(&mut req, &[DevicePage::Run(100, 8)], &dev);
    let n = page_out(&mut req, &[DevicePage::Run(100, 8)], &dev).unwrap();
    assert_eq!(n, 4);
}

/// A device reporting zero transferred pages is an error, not a reason to spin.
#[test]
fn test_page_in_no_progress_is_error() {
    let dev = MockDevice {
        alloc_pages: 8,
        alloc_chunk: 8,
        forced_tfer: Some(0),
    };
    let mut req = PageRequest::new(0, 8);
    let res = page_in(&mut req, &[DevicePage::Run(100, 8)], &dev);
    assert!(res.is_err());
    assert_eq!(res.unwrap_err(), ErrorKind::UnexpectedEof);
}

/// Entries no page landed in are dropped, not retained as zero-length ranges.
#[test]
fn test_page_in_truncates_untouched_entries() {
    let dev = MockDevice {
        alloc_pages: 4,
        alloc_chunk: 2,
        forced_tfer: None,
    };
    let mut req = PageRequest::new(0, 2);
    let (n, freed) = page_in(&mut req, &[DevicePage::Run(100, 2)], &dev).unwrap();
    assert_eq!(n, 2);
    assert_eq!(req.phys_list.len(), 1);
    assert_eq!(req.nr_pages, 2);
    assert_eq!(req.completed, 2);
    assert_eq!(freed, vec![PhysRange { start: 8192, end: 16384 }]);
}

#[test]
fn an_entry_is_cut_where_the_pages_end() {
    let dev = MockDevice {
        alloc_pages: 4,
        alloc_chunk: 4,
        forced_tfer: None,
    };
    let mut req = PageRequest::new(0, 3);
    let pages = [DevicePage::Run(7, 1), DevicePage::Hole(1), DevicePage::Run(20, 1)];
    let (n, freed) = page_in(&mut req, &pages, &dev).unwrap();
    assert_eq!(n, 3);
    assert_eq!(req.nr_pages, 3);
    assert_eq!(req.completed, 0);
    assert_eq!(freed, vec![PhysRange { start: 12288, end: 16384 }]);
    assert_eq!(req.phys_list.as_slice()[0].range, PhysRange { start: 0, end: 12288 });
}

#[test]
fn finished_memory_is_passed_over() {
    let mut list = mayheap::Vec::<PagedPhysMem, MAYHEAP_LEN>::new();
    list.push(PagedPhysMem::new(PhysRange { start: 0, end: 8192 }).completed()).unwrap();
    list.push(PagedPhysMem::new(PhysRange { start: 8192, end: 16384 })).unwrap();
    let mut req = PageRequest::new_from_list(list, 5, 4);
    let mut t = req.begin().unwrap();
    assert_eq!((t.cursor, t.inner_cursor), (1, 0));
    let pages = [DevicePage::Run(100, 2)];
    assert_eq!(req.step(&mut t, &pages), Step::Move { start: 100, nr_pages: 2 });
    assert_eq!(req.record(&mut t, 1), Ok(()));
    assert_eq!((t.cursor, t.inner_cursor, t.count), (1, 1, 1));
    assert_eq!(req.step(&mut t, &pages), Step::Move { start: 101, nr_pages: 1 });
    assert_eq!(req.record(&mut t, 1), Ok(()));
    assert_eq!(req.completed, 2);
    assert_eq!(req.step(&mut t, &pages), Step::Continue);
    assert_eq!(req.step(&mut t, &pages), Step::Done);
    assert_eq!(t.tfer_count, 2);
    assert!(req.begin().is_none());
    assert_eq!(req.into_list().len(), 2);
}

#[test]
fn a_request_without_memory_has_nothing_to_do() {
    let mut req = PageRequest::new(0, 8);
    assert!(req.begin().is_none());
    req.phys_allocated(8);
    assert_eq!((req.nr_pages, req.completed), (0, 0));
}

#[test]
fn allocation_is_counted_up_to_what_was_asked_for() {
    let dev = MockDevice {
        alloc_pages: 6,
        alloc_chunk: 3,
        forced_tfer: None,
    };
    let mut req = PageRequest::new(0, 4);
    let pages = [DevicePage::Run(9, 3), DevicePage::Hole(1)];
    assert_eq!(requested_pages(&pages), 4);
    setup_phys(&mut req, &pages, &dev);
    assert_eq!((req.nr_pages, req.completed), (4, 0));
}

#[test]
fn a_device_that_claims_too_much_is_taken_at_its_word() {
    let dev = MockDevice {
        alloc_pages: 2,
        alloc_chunk: 2,
        forced_tfer: Some(9),
    };
    let mut req = PageRequest::new(0, 2);
    let (n, freed) = page_in(&mut req, &[DevicePage::Run(100, 2)], &dev).unwrap();
    assert_eq!(n, 9);
    assert!(freed.is_empty());
    assert_eq!(req.completed, 2);
}

#[test]
fn flags_of_memory() {
    let mem = PagedPhysMem::new(PhysRange { start: 4096, end: 4096 * 3 + 100 });
    assert!(!mem.is_completed());
    assert!(!mem.is_wired());
    assert_eq!(mem.len(), 8292);
    assert_eq!(mem.nr_pages(), 2);
    let wired = mem.wired();
    assert!(wired.is_wired() && !wired.is_completed());
    let mut both = wired.completed();
    assert!(both.is_wired() && both.is_completed());
    both.set_wired();
    assert!(both.same_flags(&mem.completed().wired()));
    assert!(!both.same_flags(&wired));
    let mut cut = mem;
    assert_eq!(cut.split_off(1), PhysRange { start: 8192, end: 12388 });
    assert_eq!(cut.range, PhysRange { start: 4096, end: 8192 });
}

#[test]
fn runs_of_an_array() {
    let pages = DevicePage::from_array(&[0, 0, 7, 8, 9, 20, 0]);
    assert_eq!(
        pages.as_slice(),
        &[
            DevicePage::Hole(2),
            DevicePage::Run(7, 3),
            DevicePage::Run(20, 1),
            DevicePage::Hole(1)
        ]
    );
    assert_eq!(DevicePage::from_array(&[]).len(), 0);
}

#[test]
fn offset_drops_pages_from_the_front() {
    let mut run = DevicePage::Run(100, 10);
    let mut avail = 4usize;
    run.offset(&mut avail);
    assert_eq!((run, avail), (DevicePage::Run(104, 6), 4));
    let mut avail = 9usize;
    run.offset(&mut avail);
    assert_eq!((run, avail), (DevicePage::Run(110, 0), 6));
    let mut hole = DevicePage::Hole(3);
    let mut avail = 0x1_0000_0002usize;
    hole.offset(&mut avail);
    assert_eq!((hole, avail), (DevicePage::Hole(1), 2));
    assert_eq!(hole.as_hole(), Some(1));
    assert_eq!(run.as_hole(), None);
    assert_eq!(DevicePage::Run(1, 12).nr_pages(), 12);
}

#[test]
fn config_ids_read_back() {
    let id = 0x0102_0304_0506_0708_090a_0b0c_0d0e_0f10u128;
    let bytes = encode_config_id(id);
    assert_eq!(bytes.as_slice(), &id.to_le_bytes());
    assert_eq!(decode_config_id(&bytes, 16), Ok(id));
    assert_eq!(decode_config_id(&bytes, 15), Err(ErrorKind::InvalidData));
    assert_eq!(decode_config_id(&[0; 16], 16), Err(ErrorKind::InvalidData));
    assert_eq!(decode_config_id(&encode_config_id(123), 16), Ok(123));
    assert_eq!(decode_config_id(&encode_config_id(u128::MAX), 16), Ok(u128::MAX));
}

#[test]
fn open_flags_have_bits() {
    let flags = ExternalOpenFlags { read: true, write: false, create: true, truncate: true };
    assert_eq!(flags.bits(), 0b1101);
    for bits in 0..16u32 {
        assert_eq!(ExternalOpenFlags::from_bits(bits).unwrap().bits(), bits);
    }
    assert_eq!(ExternalOpenFlags::from_bits(0b1101), Some(flags));
    assert_eq!(ExternalOpenFlags::from_bits(16), None);
}

#[test]
fn moving_in_parts_is_moving_at_once() {
    let memory = || {
        let mut list = mayheap::Vec::<PagedPhysMem, MAYHEAP_LEN>::new();
        for (i, pages) in [3u64, 2, 4, 1].into_iter().enumerate() {
            let start = i as u64 * 0x10_0000;
            let mem = PagedPhysMem::new(PhysRange { start, end: start + pages * 4096 });
            let _ = list.push(if i == 1 { mem.completed().wired() } else { mem });
        }
        PageRequest::new_from_list(list, 0, 10)
    };
    for a in 1..8usize {
        for b in 1..8usize {
            let (mut parts, mut whole) = (memory(), memory());
            let (mut t, mut u) = (parts.begin().unwrap(), whole.begin().unwrap());
            parts.record(&mut t, a).unwrap();
            parts.record(&mut t, b).unwrap();
            whole.record(&mut u, a + b).unwrap();
            assert_eq!(t, u);
            assert_eq!(parts.completed, whole.completed);
            assert_eq!(parts.phys_list.as_slice(), whole.phys_list.as_slice());
        }
    }
}

#[test]
fn advancing_in_parts_is_advancing_at_once() {
    let memory = || {
        let mut list = mayheap::Vec::<PagedPhysMem, MAYHEAP_LEN>::new();
        for (i, pages) in [3u64, 2, 4].into_iter().enumerate() {
            let start = i as u64 * 0x10_0000;
            let mem = PagedPhysMem::new(PhysRange { start, end: start + pages * 4096 });
            let _ = list.push(if i == 1 { mem.completed() } else { mem });
        }
        PageRequest::new_from_list(list, 0, 9)
    };
    for (cursor, inner) in [(0usize, 0usize), (0, 2), (1, 1), (2, 4), (3, 0), (7, 5)] {
        for a in 0..9usize {
            for b in 0..9usize {
                let (mut parts, mut whole) = (memory(), memory());
                let (c, i) = parts.advance(cursor, inner, a);
                assert_eq!(parts.advance(c, i, b), whole.advance(cursor, inner, a + b));
                assert_eq!(parts.completed, whole.completed);
                assert_eq!(parts.phys_list.as_slice(), whole.phys_list.as_slice());
            }
        }
    }
    let mut request = memory();
    assert_eq!(request.advance(0, 1, 3), (2, 1));
    assert_eq!(request.completed, 3);
    assert_eq!(request.advance(7, 5, 2), (7, 5));
}
