use object_store::ext4::dirs::{Dirent, FileKind};
use object_store::ext4::removal::{
    DeleteStep, Removal, RemovalStep, RenameStep, Renaming, Victim,
};
use object_store::{DevicePage, ErrorKind, Ext4Store, ProbeMiss, MAYHEAP_LEN};

fn listing(names: &[&[u8]]) -> Vec<Dirent> {
    names
        .iter()
        .map(|name| Dirent { name: name.to_vec(), ino: 50, kind: FileKind::Regular })
        .collect()
}

/// What the file system says.
#[derive(Clone, Copy)]
struct Answers<'a> {
    existing: Option<(u32, FileKind)>,
    listing: &'a [Dirent],
    opened: Option<u32>,
    path: bool,
    removed: bool,
}

/// Removes a name, and gives back the steps with the end.
fn remove(removal: Removal, answers: Answers<'_>) -> Vec<RemovalStep> {
    let mut steps = vec![removal.first()];
    loop {
        let step = match steps[steps.len() - 1] {
            RemovalStep::FindName(dir) => {
                assert_eq!(dir, removal.dir);
                removal.after_find(answers.existing)
            }
            RemovalStep::List(ino) => removal.after_list(ino, answers.listing),
            RemovalStep::OpenName(dir) => {
                assert_eq!(dir, removal.dir);
                removal.after_open(answers.opened)
            }
            RemovalStep::Forget(victim) => removal.after_forget(victim),
            RemovalStep::FindPath(victim) if answers.path => removal.after_path(victim),
            RemovalStep::FindPath(victim) => removal.after_remove(victim, false),
            RemovalStep::Remove(victim) => removal.after_remove(victim, answers.removed),
            RemovalStep::Invalidate { removed, .. } => removal.after_invalidate(removed),
            RemovalStep::Done | RemovalStep::Refused(_) | RemovalStep::Failed => return steps,
        };
        steps.push(step);
    }
}

const FILE: Answers<'static> = Answers {
    existing: Some((9, FileKind::Regular)),
    listing: &[],
    opened: Some(9),
    path: true,
    removed: true,
};

#[test]
fn a_file_is_forgotten_before_it_goes() {
    let victim = Victim { ino: Some(9), directory: false };
    for directories in [true, false] {
        let removal = Removal::new(11, directories);
        assert_eq!(
            remove(removal, FILE),
            vec![
                RemovalStep::FindName(11),
                RemovalStep::OpenName(11),
                RemovalStep::Forget(victim),
                RemovalStep::FindPath(victim),
                RemovalStep::Remove(victim),
                RemovalStep::Invalidate { ino: 9, removed: true },
                RemovalStep::Done,
            ]
        );
        // However it ends, what is known of its extents is forgotten.
        let failed = remove(removal, Answers { removed: false, ..FILE });
        assert_eq!(
            failed[5..],
            [RemovalStep::Invalidate { ino: 9, removed: false }, RemovalStep::Failed]
        );
        let lost = remove(removal, Answers { path: false, ..FILE });
        assert_eq!(
            lost[3..],
            [
                RemovalStep::FindPath(victim),
                RemovalStep::Invalidate { ino: 9, removed: false },
                RemovalStep::Failed,
            ]
        );
    }
}

#[test]
fn what_cannot_be_opened_stays_cached() {
    let victim = Victim { ino: None, directory: false };
    let link = Answers { existing: Some((9, FileKind::Symlink)), opened: None, ..FILE };
    let steps = vec![
        RemovalStep::FindName(11),
        RemovalStep::OpenName(11),
        RemovalStep::FindPath(victim),
        RemovalStep::Remove(victim),
    ];
    let removal = Removal::new(11, true);
    let mut done = steps.clone();
    done.push(RemovalStep::Done);
    assert_eq!(remove(removal, link), done);
    let mut failed = steps;
    failed.push(RemovalStep::Failed);
    assert_eq!(remove(removal, Answers { removed: false, ..link }), failed);
}

#[test]
fn a_directory_is_listed_before_it_goes() {
    let victim = Victim { ino: Some(30), directory: true };
    let (empty, full) = (listing(&[b".", b".."]), listing(&[b".", b"..", b"a"]));
    let dir = Answers { existing: Some((30, FileKind::Directory)), listing: &empty, ..FILE };
    let removal = Removal::new(2, true);
    assert_eq!(
        remove(removal, dir),
        vec![
            RemovalStep::FindName(2),
            RemovalStep::List(30),
            RemovalStep::Forget(victim),
            RemovalStep::FindPath(victim),
            RemovalStep::Remove(victim),
            RemovalStep::Invalidate { ino: 30, removed: true },
            RemovalStep::Done,
        ]
    );
    assert_eq!(
        remove(removal, Answers { listing: &full, ..dir }),
        vec![
            RemovalStep::FindName(2),
            RemovalStep::List(30),
            RemovalStep::Refused(ErrorKind::DirectoryNotEmpty),
        ]
    );
    // A directory does not make place for another name, empty or not.
    assert_eq!(
        remove(Removal::new(2, false), dir),
        vec![RemovalStep::FindName(2), RemovalStep::Refused(ErrorKind::Unsupported)]
    );
}

#[test]
fn a_rename_removes_the_destination_first() {
    let renaming = Renaming::begin(Some(Some(11)), None).unwrap();
    assert_eq!(renaming, Renaming { from: 11, to: 2 });
    let steps = |existing| {
        let mut steps = vec![renaming.first()];
        loop {
            let step = match steps[steps.len() - 1] {
                RenameStep::FindName(_) => renaming.after_find(existing),
                RenameStep::Remove(_) => renaming.after_remove(),
                RenameStep::FindOldPath(_) => renaming.after_old_path(),
                RenameStep::FindNewPath(_) => renaming.after_new_path(),
                RenameStep::Rename => renaming.after_rename(),
                RenameStep::Done | RenameStep::Refused(_) => return steps,
            };
            steps.push(step);
        }
    };
    let moving = [
        RenameStep::FindOldPath(11),
        RenameStep::FindNewPath(2),
        RenameStep::Rename,
        RenameStep::Done,
    ];
    let free = steps(None);
    assert_eq!(free[0], RenameStep::FindName(2));
    assert_eq!(free[1..], moving);
    let taken = steps(Some((9, FileKind::Regular)));
    assert_eq!(taken[..2], [RenameStep::FindName(2), RenameStep::Remove(2)]);
    assert_eq!(taken[2..], moving);
    assert_eq!(
        steps(Some((9, FileKind::Directory))),
        vec![RenameStep::FindName(2), RenameStep::Refused(ErrorKind::AlreadyExists)]
    );
    assert_eq!(Renaming::begin(Some(None), None), Err(ErrorKind::InvalidInput));
    assert_eq!(Renaming::begin(None, Some(None)), Err(ErrorKind::InvalidInput));
    assert_eq!(Renaming::begin(Some(Some(0)), Some(Some(1))), Ok(Renaming { from: 2, to: 2 }));
}

/// A store that knows inode number, length and extents of an object.
fn knowing(id: u128) -> Ext4Store {
    let mut s = Ext4Store::new(4096).unwrap();
    s.insert_ino_cache(id, 40);
    let mut out = mayheap::Vec::<DevicePage, MAYHEAP_LEN>::new();
    match s.begin_disk_blocks(id, 0, 8, false, false, &mut out) {
        object_store::ext4::store::BlockPlan::Walk(mut walk) => {
            walk.record(Some(100), 8, &mut out).unwrap();
            assert_eq!(s.finish_disk_blocks(walk), 0);
        }
        _ => panic!("expected a walk"),
    }
    s.set_len_in_cache(id, 4096 * 8);
    assert_eq!(s.page_in_would_block(id, 0, 8), ProbeMiss::Cached);
    s
}

#[test]
fn a_removal_leaves_nothing_cached() {
    let mut s = knowing(5);
    let guard = s.begin_removal(5);
    assert_eq!(s.lookup_ino_cache(5), None);
    assert!(!s.len_is_cached(5));
    s.end_mutation(guard);
    assert!(!s.len_is_cached(5));
    // A later file with the same id starts with nothing known of it.
    s.set_len_in_cache(5, 4096 * 8);
    assert_eq!(s.page_in_would_block(5, 0, 8), ProbeMiss::Partial);
}

/// Deletes an object, and gives back the steps with the end.
fn delete(s: &mut Ext4Store, id: u128, removed: bool, flushed: bool) -> Vec<DeleteStep> {
    let mut steps = vec![DeleteStep::Begin];
    let mut guard = None;
    loop {
        let step = steps[steps.len() - 1];
        let carried_out = match step {
            DeleteStep::Begin => {
                guard = Some(s.begin_mutation(id));
                true
            }
            DeleteStep::Forget => s.begin_delete(id, false).is_ok(),
            DeleteStep::RemoveFile => {
                assert_eq!(s.lookup_ino_cache(id), None);
                assert!(!s.len_is_cached(id));
                removed
            }
            DeleteStep::Flush => flushed,
            DeleteStep::NoteAbsent => {
                s.set_absent_in_cache(id);
                true
            }
            DeleteStep::Invalidate { .. } => {
                s.end_mutation(guard.take().unwrap());
                true
            }
            DeleteStep::Done | DeleteStep::Failed => return steps,
        };
        steps.push(step.next(carried_out));
    }
}

#[test]
fn a_deleted_object_is_known_to_be_absent() {
    let mut s = knowing(5);
    assert_eq!(
        delete(&mut s, 5, true, true),
        vec![
            DeleteStep::Begin,
            DeleteStep::Forget,
            DeleteStep::RemoveFile,
            DeleteStep::Flush,
            DeleteStep::NoteAbsent,
            DeleteStep::Invalidate { deleted: true },
            DeleteStep::Done,
        ]
    );
    assert_eq!(s.len_from_cache(5), Some(Err(ErrorKind::NotFound)));
    assert_eq!(s.page_in_would_block(5, 0, 8), ProbeMiss::Partial);
    for (removed, flushed, nr) in [(false, true, 5), (true, false, 6)] {
        let mut s = knowing(5);
        let steps = delete(&mut s, 5, removed, flushed);
        assert_eq!(steps.len(), nr);
        assert_eq!(
            steps[nr - 2..],
            [DeleteStep::Invalidate { deleted: false }, DeleteStep::Failed]
        );
        assert_eq!(s.len_from_cache(5), None);
        assert_eq!(s.lookup_ino_cache(5), None);
    }
}
