use object_store::ext4::dirs::{
    child_entry, dir_is_empty, parent_entry, Dirent, FileKind, PathStep, PathWalk, MAX_DEPTH,
};
use object_store::ext4::external::{
    check_rmdir, check_unlink, link_plan, link_target, list_dir, open_flags, remove_plan,
    rename_plan, require_external, resolve_at, resolve_listed, FileFlags, LinkPlan, OpenExternal,
    OpenStep, RemovePlan,
};
use object_store::{ErrorKind, ExternalOpenFlags};

fn entry(name: &[u8], ino: u32, kind: FileKind) -> Dirent {
    Dirent { name: name.to_vec(), ino, kind }
}

fn dir(ino: u32, parent: u32, rest: Vec<Dirent>) -> Vec<Dirent> {
    let mut all = vec![
        entry(b".", ino, FileKind::Directory),
        entry(b"..", parent, FileKind::Directory),
    ];
    all.extend(rest);
    all
}

/// The entries of the directories `/`, `/usr` and `/usr/lib`.
fn tree(ino: u32) -> Vec<Dirent> {
    match ino {
        2 => dir(2, 2, vec![entry(b"usr", 11, FileKind::Directory)]),
        11 => dir(
            11,
            2,
            vec![
                entry(b"a", 30, FileKind::Regular),
                entry(b"lib", 12, FileKind::Directory),
            ],
        ),
        12 => dir(12, 11, vec![]),
        13 => vec![],
        14 => dir(14, 2, vec![]),
        15 => dir(15, 15, vec![entry(b"\xff\xfe", 16, FileKind::Directory)]),
        16 => dir(16, 15, vec![]),
        _ => dir(ino, ino + 1, vec![entry(b"x", ino - 1, FileKind::Directory)]),
    }
}

fn path_of(dir_ino: u32, name: &str) -> Result<String, ErrorKind> {
    let mut walk = PathWalk::begin(dir_ino);
    loop {
        match walk.next()? {
            PathStep::Done => return Ok(walk.finish(name)),
            PathStep::Climb(ino) => {
                let parent = parent_entry(&tree(ino))?;
                walk.climb(parent, &tree(parent))?;
            }
        }
    }
}

#[test]
fn paths_lead_from_the_root() {
    assert_eq!(path_of(2, "x").unwrap(), "x");
    assert_eq!(path_of(11, "x").unwrap(), "usr/x");
    assert_eq!(path_of(12, "x").unwrap(), "usr/lib/x");
}

#[test]
fn directories_without_a_path() {
    // No `..`.
    assert_eq!(path_of(13, "x").unwrap_err(), ErrorKind::InvalidInput);
    // Not listed in its parent.
    assert_eq!(path_of(14, "x").unwrap_err(), ErrorKind::InvalidInput);
    // A name that is no text.
    assert_eq!(path_of(16, "x").unwrap_err(), ErrorKind::InvalidInput);
    // Too deep.
    assert_eq!(path_of(1000, "x").unwrap_err(), ErrorKind::InvalidInput);
    let mut walk = PathWalk::begin(1000);
    for i in 0..MAX_DEPTH as u32 {
        assert_eq!(walk.next(), Ok(PathStep::Climb(1000 + i)));
        walk.climb(1001 + i, &tree(1001 + i)).unwrap();
    }
    assert_eq!(walk.next(), Err(ErrorKind::InvalidInput));
}

#[test]
fn children_are_found_by_name() {
    let listing = tree(11);
    assert_eq!(child_entry(&listing, b"lib"), Some((12, FileKind::Directory)));
    assert_eq!(child_entry(&listing, b"a"), Some((30, FileKind::Regular)));
    assert_eq!(child_entry(&listing, b"b"), None);
    let twice = vec![entry(b"a", 1, FileKind::Other), entry(b"a", 2, FileKind::Regular)];
    assert_eq!(child_entry(&twice, b"a"), Some((1, FileKind::Other)));
}

#[test]
fn only_empty_directories_are_removed() {
    assert!(dir_is_empty(&tree(12)));
    assert!(!dir_is_empty(&tree(11)));
    assert_eq!(check_rmdir(&tree(12)), Ok(()));
    assert_eq!(check_rmdir(&tree(11)), Err(ErrorKind::DirectoryNotEmpty));
    assert_eq!(remove_plan(Some((5, FileKind::Directory))), RemovePlan::Directory(5));
    assert_eq!(remove_plan(Some((5, FileKind::Symlink))), RemovePlan::File);
    assert_eq!(remove_plan(None), RemovePlan::File);
    assert_eq!(check_unlink(Some((5, FileKind::Directory))), Err(ErrorKind::Unsupported));
    assert_eq!(check_unlink(Some((5, FileKind::Regular))), Ok(()));
    assert_eq!(check_unlink(None), Ok(()));
}

#[test]
fn renames_replace_files_but_not_directories() {
    assert_eq!(rename_plan(None), Ok(false));
    assert_eq!(rename_plan(Some((5, FileKind::Regular))), Ok(true));
    assert_eq!(rename_plan(Some((5, FileKind::Directory))), Err(ErrorKind::AlreadyExists));
}

#[test]
fn names_are_looked_up_somewhere() {
    assert_eq!(resolve_at(None), Ok(2));
    assert_eq!(resolve_at(Some(Some(0))), Ok(2));
    assert_eq!(resolve_at(Some(Some(1))), Ok(2));
    assert_eq!(resolve_at(Some(Some(9))), Ok(9));
    assert_eq!(resolve_at(Some(None)), Err(ErrorKind::InvalidInput));
    assert_eq!(resolve_listed(Some(0)), Ok(2));
    assert_eq!(resolve_listed(Some(1)), Ok(1));
    assert_eq!(resolve_listed(None), Err(ErrorKind::InvalidInput));
    assert_eq!(require_external(Some(8)), Ok(8));
    assert_eq!(require_external(None), Err(ErrorKind::InvalidInput));
}

fn flags(bits: u32) -> ExternalOpenFlags {
    ExternalOpenFlags::from_bits(bits).unwrap()
}

#[test]
fn files_are_opened_read_only_only_to_read() {
    assert!(!open_flags(flags(1)).read_write);
    assert!(open_flags(flags(0)).read_write);
    assert!(open_flags(flags(2)).read_write);
    assert!(open_flags(flags(3)).read_write);
    assert_eq!(
        open_flags(flags(13)),
        FileFlags { read_write: false, create: true, truncate: true }
    );
}

#[test]
fn linking_replaces_what_the_name_stood_for() {
    assert_eq!(link_plan(None, 5), LinkPlan::Link);
    assert_eq!(link_plan(Some((5, FileKind::Regular)), 5), LinkPlan::Keep);
    assert_eq!(link_plan(Some((6, FileKind::Regular)), 5), LinkPlan::Replace);

    let open = OpenExternal::begin(Some(Some(11)), flags(1), Some(Some(5))).unwrap();
    let opened = OpenStep::Open {
        dir: 11,
        flags: FileFlags { read_write: false, create: false, truncate: false },
    };
    let link = OpenStep::Link { dir: 11, target: 5 };
    assert_eq!(open.first(), OpenStep::FindName(11));
    assert_eq!(open.after_find(None), link);
    assert_eq!(open.after_find(Some((5, FileKind::Regular))), opened);
    assert_eq!(open.after_find(Some((6, FileKind::Regular))), OpenStep::Remove(11));
    assert_eq!(open.after_remove(), link);
    assert_eq!(open.after_link(), opened);
    assert_eq!(open.after_open(0), OpenStep::Done);
}

#[test]
fn opening_stamps_and_forgets() {
    let create = OpenExternal::begin(None, flags(6), None).unwrap();
    assert_eq!(
        create.first(),
        OpenStep::Open {
            dir: 2,
            flags: FileFlags { read_write: true, create: true, truncate: false },
        }
    );
    assert_eq!(create.after_open(0), OpenStep::Stamp);
    assert_eq!(create.after_open(7), OpenStep::Invalidate);
    assert_eq!(create.after_stamp(), OpenStep::Invalidate);
    let both = OpenExternal::begin(None, flags(14), None).unwrap();
    assert_eq!(both.after_open(7), OpenStep::Stamp);
    let truncate = OpenExternal::begin(None, flags(10), None).unwrap();
    assert_eq!(truncate.after_open(0), OpenStep::Invalidate);
    assert_eq!(
        OpenExternal::begin(Some(None), flags(1), None),
        Err(ErrorKind::InvalidInput)
    );
    assert_eq!(
        OpenExternal::begin(None, flags(1), Some(None)),
        Err(ErrorKind::InvalidInput)
    );
}

#[test]
fn link_targets_are_short_text() {
    assert_eq!(link_target(b"../usr".to_vec(), 6).unwrap(), "../usr");
    assert_eq!(link_target("h\u{e9}".as_bytes().to_vec(), 6).unwrap(), "h\u{e9}");
    assert_eq!(link_target(b"../usr".to_vec(), 5).unwrap_err(), ErrorKind::InvalidData);
    assert_eq!(link_target(vec![0xff], 5).unwrap_err(), ErrorKind::InvalidData);
}

fn names(listing: &[Dirent], skip: usize, count: usize) -> (Vec<String>, usize) {
    let (entries, iterated) = list_dir(listing, skip, count);
    (entries.into_iter().map(|e| e.name).collect(), iterated)
}

#[test]
fn listings_drop_what_is_no_text_and_page() {
    let listing = vec![
        entry(b"a", 1, FileKind::Regular),
        entry(b"\xff", 2, FileKind::Regular),
        entry(b"b", 3, FileKind::Directory),
        entry(b"c", 4, FileKind::Symlink),
        entry(b"d", 5, FileKind::Other),
    ];
    assert_eq!(names(&listing, 0, 10), (vec!["a".into(), "b".into(), "c".into(), "d".into()], 5));
    assert_eq!(names(&listing, 0, 2), (vec!["a".into(), "b".into()], 3));
    assert_eq!(names(&listing, 2, 2), (vec!["c".into(), "d".into()], 5));
    assert_eq!(names(&listing, 4, 2), (vec![], 5));
    assert_eq!(names(&listing, 0, 0), (vec![], 0));
    let (entries, _) = list_dir(&listing, 1, 1);
    assert_eq!(entries[0].ino, 3);
    assert_eq!(entries[0].kind, FileKind::Directory);
}
