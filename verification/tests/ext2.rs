use object_store::ext2::{
    blocks_per_page, e2error_to_std, e2result_to_std, get_id_path, missing_bytes, next_fill,
    page_blocks, page_out_growth, page_target, require_kind, writes_whole_pages, Ext2Failure,
};
use object_store::ext4::dirs::FileKind;
use object_store::text::{append_dec, append_hex};
use object_store::{ErrorKind, PageRequest};

#[test]
fn failures_have_kinds() {
    let kinds = [
        (Ext2Failure::DeviceWriteZero, ErrorKind::WriteZero),
        (Ext2Failure::DeviceOther, ErrorKind::UnexpectedEof),
        (Ext2Failure::EntryAlreadyExist, ErrorKind::AlreadyExists),
        (Ext2Failure::Implementation, ErrorKind::Other),
        (Ext2Failure::Loop, ErrorKind::Other),
        (Ext2Failure::NameTooLong, ErrorKind::InvalidInput),
        (Ext2Failure::NotDir, ErrorKind::NotADirectory),
        (Ext2Failure::NoEnt, ErrorKind::NotFound),
        (Ext2Failure::NotFound, ErrorKind::NotFound),
        (Ext2Failure::RemoveRefused, ErrorKind::ResourceBusy),
        (Ext2Failure::WrongFileType, ErrorKind::Other),
        (Ext2Failure::AbsolutePathRequired, ErrorKind::Other),
        (Ext2Failure::InvalidCString, ErrorKind::InvalidInput),
        (Ext2Failure::InvalidFilename, ErrorKind::Other),
        (Ext2Failure::Io, ErrorKind::Other),
    ];
    for (failure, kind) in kinds {
        assert_eq!(e2error_to_std(failure), kind);
        assert_eq!(e2result_to_std::<u8>(Err(failure)), Err(kind));
    }
    assert_eq!(e2result_to_std(Ok(3u8)), Ok(3));
}

#[test]
fn objects_are_regular_files() {
    assert_eq!(require_kind(FileKind::Regular, FileKind::Regular), Ok(()));
    assert_eq!(
        require_kind(FileKind::Directory, FileKind::Regular),
        Err(ErrorKind::Other)
    );
}

#[test]
fn objects_have_absolute_paths() {
    let (dir, path) = get_id_path(0x0c00_0000_0000_0000_0000_0000_0000_0001);
    assert_eq!(dir, "c");
    assert_eq!(path, "/ids/c/c000000000000000000000000000001");
}

#[test]
fn files_are_filled_up() {
    assert_eq!(missing_bytes(4096, 1024, 1024), 4096);
    assert_eq!(missing_bytes(0, 1024, 1024), 0);
    assert_eq!(missing_bytes(0, 10, 1024), 0);
    let mut missing = missing_bytes(10_000, 0, 0);
    let mut fills = Vec::new();
    while missing > 0 {
        let n = next_fill(missing);
        fills.push(n);
        missing -= n as u64;
    }
    assert_eq!(fills, vec![4096, 4096, 1808]);
    assert_eq!(next_fill(0), 0);
}

#[test]
fn whole_pages_go_to_blocks() {
    assert!(writes_whole_pages(8192, 4096));
    assert!(writes_whole_pages(0, 0));
    assert!(!writes_whole_pages(8192, 100));
    assert!(!writes_whole_pages(100, 4096));
    assert_eq!(page_target(8192, 1, 1024), (12, 4096));
    assert_eq!(page_target(8192, 0, 4096), (2, 0));
}

#[test]
fn pages_have_blocks() {
    assert_eq!(blocks_per_page(1024), 4);
    assert_eq!(page_blocks(8, 3, 4), vec![32, 36, 40]);
    assert_eq!(page_blocks(-1, 2, 1), vec![u32::MAX, 0]);
    assert_eq!(page_blocks(5, 0, 4), Vec::<u32>::new());
}

#[test]
fn paging_out_grows_a_file() {
    let reqs = [PageRequest::new(8, 1), PageRequest::new(12, 1)];
    assert_eq!(page_out_growth(&reqs, 0), Some(13 * 4096));
    assert_eq!(page_out_growth(&reqs, 13 * 4096), Some(13 * 4096));
    assert_eq!(page_out_growth(&reqs, 13 * 4096 + 1), None);
    assert_eq!(page_out_growth(&[], 0), Some(0));
    assert_eq!(page_out_growth(&[], 1), None);
}

#[test]
fn numbers_are_written_as_text() {
    for n in [0u64, 9, 10, 4096, u64::MAX] {
        let mut out = String::from("<");
        append_dec(&mut out, n);
        assert_eq!(out, format!("<{}", n));
        let mut out = String::new();
        append_hex(&mut out, n as u128);
        assert_eq!(out, format!("{:x}", n));
    }
}
