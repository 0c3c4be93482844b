//! Removing names, renaming them, and deleting objects, step by step.
//!
//! What is cached of an object is kept under its id. The id of an external file is derived from an
//! inode number, and inode numbers are reused: so what is cached of a file goes before the file
//! does, and what is known of its extents is forgotten however removing it ends.

use vstd::prelude::*;

use crate::error::ErrorKind;
use crate::ext4::dirs;
use crate::ext4::dirs::Dirent;
use crate::ext4::dirs::FileKind;
use crate::ext4::dirs::ROOT_INO;
use crate::ext4::external;
use crate::ext4::external::RemovePlan;
use crate::ext4::store::Ext4Store;
use crate::extents::tracker;
use crate::paged_object_store::ObjID;

verus! {

/// What a name that is removed stands for.
#[derive(Clone, Copy, Debug, PartialEq, Eq, Structural)]
pub struct Victim {
    /// Its inode, where that could be found out.
    pub ino: Option<u32>,
    /// Whether it is a directory.
    pub directory: bool,
}

/// A step of removing a name.
#[derive(Clone, Copy, Debug, PartialEq, Eq, Structural)]
pub enum RemovalStep {
    /// Look the name up in this directory.
    FindName(u32),
    /// List the directory with this inode, which the name stands for.
    List(u32),
    /// Open the name in this directory, to find out the inode that it stands for.
    OpenName(u32),
    /// Begin the removal of the object that the name stands for.
    Forget(Victim),
    /// Find the path of the name.
    FindPath(Victim),
    /// Remove the path.
    Remove(Victim),
    /// End the removal of the object with this inode.
    Invalidate {
        /// The inode.
        ino: u32,
        /// Whether the name is gone.
        removed: bool,
    },
    /// The name is gone.
    Done,
    /// The name may not be removed.
    Refused(ErrorKind),
    /// The file system has failed.
    Failed,
}

/// What the file system says while a name is removed.
pub struct RemovalAnswers {
    /// What the name stands for.
    pub existing: Option<(u32, FileKind)>,
    /// Whether the directory that it stands for is empty, `None` where it cannot be listed.
    pub empty: Option<bool>,
    /// The inode of the file that it stands for, `None` where it cannot be opened.
    pub opened: Option<u32>,
    /// Whether the name has a path.
    pub path_found: bool,
    /// Whether the path could be removed.
    pub removed: bool,
}

/// How a name is removed, step by step.
#[derive(Clone, Copy, Debug, PartialEq, Eq, Structural)]
pub struct Removal {
    /// The directory that the name is in.
    pub dir: u32,
    /// Whether a directory may be removed too. Not where the name is only to make place for
    /// another one.
    pub directories: bool,
}

/// Whether a listing holds nothing but the directory itself and its parent.
pub open spec fn only_dots(dirents: Seq<Dirent>) -> bool {
    forall|i: int|
        0 <= i < dirents.len() ==> (#[trigger] dirents[i]).name@ == dirs::dot()
            || dirents[i].name@ == dirs::dotdot()
}

impl Removal {
    /// The step once the name is looked up, and is `existing`.
    pub open spec fn found_step(self, existing: Option<(u32, FileKind)>) -> RemovalStep {
        match existing {
            Some((ino, FileKind::Directory)) => if self.directories {
                RemovalStep::List(ino)
            } else {
                RemovalStep::Refused(ErrorKind::Unsupported)
            },
            _ => RemovalStep::OpenName(self.dir),
        }
    }

    /// The step once the directory with inode `ino` is listed, and is empty or not.
    pub open spec fn listed_step(self, ino: u32, empty: bool) -> RemovalStep {
        if empty {
            RemovalStep::Forget(Victim { ino: Some(ino), directory: true })
        } else {
            RemovalStep::Refused(ErrorKind::DirectoryNotEmpty)
        }
    }

    /// The step once the name is opened, and stands for `ino`.
    pub open spec fn opened_step(self, ino: Option<u32>) -> RemovalStep {
        let victim = Victim { ino, directory: false };
        if ino is Some {
            RemovalStep::Forget(victim)
        } else {
            RemovalStep::FindPath(victim)
        }
    }

    /// The step once the file system was asked for the last time, and the name is gone or not.
    pub open spec fn ended_step(self, victim: Victim, removed: bool) -> RemovalStep {
        match victim.ino {
            Some(ino) => RemovalStep::Invalidate { ino, removed },
            None => self.outcome_step(removed),
        }
    }

    /// The end, the name being gone or not.
    pub open spec fn outcome_step(self, removed: bool) -> RemovalStep {
        if removed {
            RemovalStep::Done
        } else {
            RemovalStep::Failed
        }
    }

    /// The step that follows `step`.
    pub open spec fn following(self, step: RemovalStep, answers: RemovalAnswers) -> RemovalStep {
        match step {
            RemovalStep::FindName(_) => self.found_step(answers.existing),
            RemovalStep::List(ino) => match answers.empty {
                Some(empty) => self.listed_step(ino, empty),
                None => RemovalStep::Failed,
            },
            RemovalStep::OpenName(_) => self.opened_step(answers.opened),
            RemovalStep::Forget(victim) => RemovalStep::FindPath(victim),
            RemovalStep::FindPath(victim) => if answers.path_found {
                RemovalStep::Remove(victim)
            } else {
                self.ended_step(victim, false)
            },
            RemovalStep::Remove(victim) => self.ended_step(victim, answers.removed),
            RemovalStep::Invalidate { ino: _, removed } => self.outcome_step(removed),
            RemovalStep::Done => step,
            RemovalStep::Refused(_) => step,
            RemovalStep::Failed => step,
        }
    }

    /// What the name stands for.
    pub open spec fn victim(self, answers: RemovalAnswers) -> Victim {
        match answers.existing {
            Some((ino, FileKind::Directory)) => Victim { ino: Some(ino), directory: true },
            _ => Victim { ino: answers.opened, directory: false },
        }
    }

    /// Whether the name may not be removed, or the directory that it stands for cannot be listed.
    pub open spec fn barred(self, answers: RemovalAnswers) -> bool {
        self.victim(answers).directory && !(self.directories && answers.empty == Some(true))
    }

    /// The steps of removing the name, but for the end.
    pub open spec fn steps(self, answers: RemovalAnswers) -> Seq<RemovalStep> {
        let victim = self.victim(answers);
        let looking = match answers.existing {
            Some((ino, FileKind::Directory)) => if self.directories {
                seq![RemovalStep::FindName(self.dir), RemovalStep::List(ino)]
            } else {
                seq![RemovalStep::FindName(self.dir)]
            },
            _ => seq![RemovalStep::FindName(self.dir), RemovalStep::OpenName(self.dir)],
        };
        let removing = if answers.path_found {
            seq![RemovalStep::FindPath(victim), RemovalStep::Remove(victim)]
        } else {
            seq![RemovalStep::FindPath(victim)]
        };
        if self.barred(answers) {
            looking
        } else {
            match victim.ino {
                Some(ino) => looking + seq![RemovalStep::Forget(victim)] + removing + seq![
                    RemovalStep::Invalidate {
                        ino,
                        removed: answers.path_found && answers.removed,
                    },
                ],
                None => looking + removing,
            }
        }
    }

    /// The end of removing the name.
    pub open spec fn end(self, answers: RemovalAnswers) -> RemovalStep {
        if self.barred(answers) {
            if !self.directories {
                RemovalStep::Refused(ErrorKind::Unsupported)
            } else if answers.empty is Some {
                RemovalStep::Refused(ErrorKind::DirectoryNotEmpty)
            } else {
                RemovalStep::Failed
            }
        } else {
            self.outcome_step(answers.path_found && answers.removed)
        }
    }

    /// Starts removing a name from the directory with inode `dir`.
    pub fn new(dir: u32, directories: bool) -> (removal: Removal)
        ensures
            removal == (Removal { dir, directories }),
    {
        Removal { dir, directories }
    }

    /// The first step.
    pub fn first(&self) -> (step: RemovalStep)
        ensures
            step == RemovalStep::FindName(self.dir),
    {
        RemovalStep::FindName(self.dir)
    }

    /// The step that follows once the name is looked up, and is `existing`.
    pub fn after_find(&self, existing: Option<(u32, FileKind)>) -> (step: RemovalStep)
        ensures
            step == self.found_step(existing),
    {
        if self.directories {
            match external::remove_plan(existing) {
                RemovePlan::Directory(ino) => RemovalStep::List(ino),
                RemovePlan::File => RemovalStep::OpenName(self.dir),
            }
        } else {
            match external::check_unlink(existing) {
                Ok(()) => RemovalStep::OpenName(self.dir),
                Err(e) => RemovalStep::Refused(e),
            }
        }
    }

    /// The step that follows once the directory with inode `ino` is listed.
    pub fn after_list(&self, ino: u32, dirents: &[Dirent]) -> (step: RemovalStep)
        ensures
            step == self.listed_step(ino, only_dots(dirents@)),
    {
        match external::check_rmdir(dirents) {
            Ok(()) => RemovalStep::Forget(Victim { ino: Some(ino), directory: true }),
            Err(e) => RemovalStep::Refused(e),
        }
    }

    /// The step that follows once the name is opened, and stands for `ino`. A name that cannot be
    /// opened (a symbolic link, say) leaves the caches as they are.
    pub fn after_open(&self, ino: Option<u32>) -> (step: RemovalStep)
        ensures
            step == self.opened_step(ino),
    {
        let victim = Victim { ino, directory: false };
        if ino.is_some() {
            RemovalStep::Forget(victim)
        } else {
            RemovalStep::FindPath(victim)
        }
    }

    /// The step that follows once the removal of the object has begun.
    pub fn after_forget(&self, victim: Victim) -> (step: RemovalStep)
        ensures
            step == RemovalStep::FindPath(victim),
    {
        RemovalStep::FindPath(victim)
    }

    /// The step that follows once the path is found.
    pub fn after_path(&self, victim: Victim) -> (step: RemovalStep)
        ensures
            step == RemovalStep::Remove(victim),
    {
        RemovalStep::Remove(victim)
    }

    /// The step that follows once the path is removed, or once finding or removing it has failed.
    pub fn after_remove(&self, victim: Victim, removed: bool) -> (step: RemovalStep)
        ensures
            step == self.ended_step(victim, removed),
    {
        match victim.ino {
            Some(ino) => RemovalStep::Invalidate { ino, removed },
            None => self.after_invalidate(removed),
        }
    }

    /// The step that follows once the removal of the object has ended.
    pub fn after_invalidate(&self, removed: bool) -> (step: RemovalStep)
        ensures
            step == self.outcome_step(removed),
    {
        if removed {
            RemovalStep::Done
        } else {
            RemovalStep::Failed
        }
    }
}

/// The steps of removing a name are those that follow one another from the first one to the end.
pub proof fn lemma_removal_steps_follow(removal: Removal, answers: RemovalAnswers)
    ensures
        ({
            let steps = removal.steps(answers);
            &&& steps.len() > 0
            &&& steps[0] == RemovalStep::FindName(removal.dir)
            &&& forall|i: int|
                0 < i < steps.len() ==> #[trigger] steps[i] == removal.following(
                    steps[i - 1],
                    answers,
                )
            &&& removal.following(steps.last(), answers) == removal.end(answers)
        }),
{
    let steps = removal.steps(answers);
    assert forall|i: int| 0 < i < steps.len() implies #[trigger] steps[i] == removal.following(
        steps[i - 1],
        answers,
    ) by {
        assert(steps.len() <= 6);
    }
}

/// A directory is removed only where that is wanted, and only when it is empty; nothing else is
/// ever asked of it.
pub proof fn lemma_only_empty_directories_go(removal: Removal, answers: RemovalAnswers, i: int)
    requires
        0 <= i < removal.steps(answers).len(),
        removal.steps(answers)[i] is Remove,
        answers.existing matches Some((_, FileKind::Directory)),
    ensures
        removal.directories,
        answers.empty == Some(true),
        removal.steps(answers)[i] == RemovalStep::Remove(
            Victim { ino: Some(answers.existing.unwrap().0), directory: true },
        ),
{
}

/// A removal that is refused, or that cannot tell what the name stands for, leaves the caches as
/// they are.
pub proof fn lemma_unknown_victims_stay_cached(removal: Removal, answers: RemovalAnswers, i: int)
    requires
        0 <= i < removal.steps(answers).len(),
        removal.barred(answers) || removal.victim(answers).ino is None,
    ensures
        !(removal.steps(answers)[i] is Forget),
        !(removal.steps(answers)[i] is Invalidate),
{
}

/// Whether a step of removing a name takes `before` to `after`, where the name stands for the
/// object `id`, whose entry lies in `slot` while its removal lasts.
pub open spec fn removal_step(
    before: Ext4Store,
    after: Ext4Store,
    step: RemovalStep,
    id: ObjID,
    slot: u64,
) -> bool {
    match step {
        RemovalStep::Forget(_) => before.removal_begun(after, id, slot),
        RemovalStep::Invalidate { .. } => before.mutation_ended(after, slot),
        _ => after == before,
    }
}

/// Whether step `i` of `steps` takes the store before it to the one behind it.
pub open spec fn removal_step_at(
    steps: Seq<RemovalStep>,
    stores: Seq<Ext4Store>,
    i: int,
    id: ObjID,
    slot: u64,
) -> bool {
    removal_step(stores[i], stores[i + 1], steps[i], id, slot)
}

/// What is cached of the object that a name stands for goes before the name does: when the name is
/// removed, neither the inode number nor the length of the object is cached. However the removal
/// ends, neither is afterwards, and nothing is known of the extents of the object.
pub proof fn lemma_removal_forgets_first(
    removal: Removal,
    answers: RemovalAnswers,
    stores: Seq<Ext4Store>,
    id: ObjID,
    slot: u64,
)
    requires
        !removal.barred(answers),
        removal.victim(answers).ino is Some,
        stores.len() == removal.steps(answers).len() + 1,
        stores[0].wf(),
        forall|i: int|
            0 <= i < removal.steps(answers).len() ==> #[trigger] removal_step_at(
                removal.steps(answers),
                stores,
                i,
                id,
                slot,
            ),
        stores[stores.len() - 2].tracker().held()[slot].age() < u64::MAX,
    ensures
        forall|i: int|
            0 <= i < removal.steps(answers).len() && removal.steps(answers)[i] is Remove ==> (
            #[trigger] stores[i]).knows_nothing_of(id),
        stores.last().knows_nothing_of(id),
        stores.last().knows_no_extents_of(id),
{
    let steps = removal.steps(answers);
    assert(steps[2] is Forget);
    assert(stores[1] == stores[0] && stores[2] == stores[1]) by {
        assert(removal_step_at(steps, stores, 0, id, slot));
        assert(removal_step_at(steps, stores, 1, id, slot));
    }
    assert(removal_step_at(steps, stores, 2, id, slot));
    assert(removal_step_at(steps, stores, 3, id, slot));
    let n = steps.len() - 1;
    if answers.path_found {
        assert(removal_step_at(steps, stores, 4, id, slot));
    }
    assert(steps[n] is Invalidate);
    assert(stores[n] == stores[3]);
    assert(removal_step_at(steps, stores, n, id, slot));
    lemma_ended_mutation_forgets(stores[2], stores[n], stores[n + 1], id, slot);
}

proof fn lemma_ended_mutation_forgets(
    before: Ext4Store,
    between: Ext4Store,
    after: Ext4Store,
    id: ObjID,
    slot: u64,
)
    requires
        before.wf(),
        tracker::entered(before.tracker(), between.tracker(), id, slot, true),
        between.mutation_ended(after, slot),
        between.tracker().held()[slot].age() < u64::MAX,
    ensures
        after.knows_no_extents_of(id),
{
    tracker::lemma_visited(before.tracker(), between.tracker(), after.tracker(), id, slot);
    tracker::lemma_release_forgets(between.tracker(), after.tracker(), slot);
}

/// A step of renaming a file.
#[derive(Clone, Copy, Debug, PartialEq, Eq, Structural)]
pub enum RenameStep {
    /// Look the new name up in this directory.
    FindName(u32),
    /// Remove the new name from this directory, unless it stands for a directory.
    Remove(u32),
    /// Find the path of the old name in this directory.
    FindOldPath(u32),
    /// Find the path of the new name in this directory.
    FindNewPath(u32),
    /// Rename the one path to the other.
    Rename,
    /// The file has its new name.
    Done,
    /// The file may not have the new name.
    Refused(ErrorKind),
}

/// How a file is renamed, step by step. A step that fails is the last one.
#[derive(Clone, Copy, Debug, PartialEq, Eq, Structural)]
pub struct Renaming {
    /// The directory that the old name is in.
    pub from: u32,
    /// The directory that the new name is in.
    pub to: u32,
}

impl Renaming {
    /// The step once the new name is looked up, and is `existing`.
    pub open spec fn found_step(self, existing: Option<(u32, FileKind)>) -> RenameStep {
        match existing {
            Some((_, FileKind::Directory)) => RenameStep::Refused(ErrorKind::AlreadyExists),
            Some(_) => RenameStep::Remove(self.to),
            None => RenameStep::FindOldPath(self.from),
        }
    }

    /// The step that follows `step`, when the new name is `existing`.
    pub open spec fn following(
        self,
        step: RenameStep,
        existing: Option<(u32, FileKind)>,
    ) -> RenameStep {
        match step {
            RenameStep::FindName(_) => self.found_step(existing),
            RenameStep::Remove(_) => RenameStep::FindOldPath(self.from),
            RenameStep::FindOldPath(_) => RenameStep::FindNewPath(self.to),
            RenameStep::FindNewPath(_) => RenameStep::Rename,
            RenameStep::Rename => RenameStep::Done,
            RenameStep::Done => step,
            RenameStep::Refused(_) => step,
        }
    }

    /// The steps of renaming the file, but for the end, when the new name is `existing`.
    pub open spec fn steps(self, existing: Option<(u32, FileKind)>) -> Seq<RenameStep> {
        let moving = seq![
            RenameStep::FindOldPath(self.from),
            RenameStep::FindNewPath(self.to),
            RenameStep::Rename,
        ];
        match existing {
            Some((_, FileKind::Directory)) => seq![RenameStep::FindName(self.to)],
            Some(_) => seq![RenameStep::FindName(self.to), RenameStep::Remove(self.to)] + moving,
            None => seq![RenameStep::FindName(self.to)] + moving,
        }
    }

    /// Starts renaming a file. `at` is the directory of the old name, and `to` that of the new one;
    /// `Some(None)` is an id that is no external one.
    pub fn begin(at: Option<Option<u32>>, to: Option<Option<u32>>) -> (renaming: Result<
        Renaming,
        ErrorKind,
    >)
        ensures
            renaming is Err <==> at == Some(None::<u32>) || to == Some(None::<u32>),
            renaming matches Err(e) ==> e == ErrorKind::InvalidInput,
            renaming matches Ok(r) ==> {
                &&& r.from == (match at {
                    Some(Some(i)) => if i < ROOT_INO {
                        ROOT_INO
                    } else {
                        i
                    },
                    _ => ROOT_INO,
                })
                &&& r.to == (match to {
                    Some(Some(i)) => if i < ROOT_INO {
                        ROOT_INO
                    } else {
                        i
                    },
                    _ => ROOT_INO,
                })
            },
    {
        let from = external::resolve_at(at)?;
        let to = external::resolve_at(to)?;
        Ok(Renaming { from, to })
    }

    /// The first step.
    pub fn first(&self) -> (step: RenameStep)
        ensures
            step == RenameStep::FindName(self.to),
    {
        RenameStep::FindName(self.to)
    }

    /// The step that follows once the new name is looked up, and is `existing`.
    pub fn after_find(&self, existing: Option<(u32, FileKind)>) -> (step: RenameStep)
        ensures
            step == self.found_step(existing),
    {
        match external::rename_plan(existing) {
            Ok(true) => RenameStep::Remove(self.to),
            Ok(false) => RenameStep::FindOldPath(self.from),
            Err(e) => RenameStep::Refused(e),
        }
    }

    /// The step that follows once the new name is free.
    pub fn after_remove(&self) -> (step: RenameStep)
        ensures
            step == RenameStep::FindOldPath(self.from),
    {
        RenameStep::FindOldPath(self.from)
    }

    /// The step that follows once the path of the old name is found.
    pub fn after_old_path(&self) -> (step: RenameStep)
        ensures
            step == RenameStep::FindNewPath(self.to),
    {
        RenameStep::FindNewPath(self.to)
    }

    /// The step that follows once the path of the new name is found.
    pub fn after_new_path(&self) -> (step: RenameStep)
        ensures
            step == RenameStep::Rename,
    {
        RenameStep::Rename
    }

    /// The step that follows once the file is renamed.
    pub fn after_rename(&self) -> (step: RenameStep)
        ensures
            step == RenameStep::Done,
    {
        RenameStep::Done
    }
}

/// The steps of renaming a file are those that follow one another from the first one to the end.
pub proof fn lemma_rename_steps_follow(renaming: Renaming, existing: Option<(u32, FileKind)>)
    ensures
        ({
            let steps = renaming.steps(existing);
            &&& steps.len() > 0
            &&& steps[0] == RenameStep::FindName(renaming.to)
            &&& forall|i: int|
                0 < i < steps.len() ==> #[trigger] steps[i] == renaming.following(
                    steps[i - 1],
                    existing,
                )
            &&& existing matches Some((_, FileKind::Directory)) ==> renaming.following(
                steps.last(),
                existing,
            ) == RenameStep::Refused(ErrorKind::AlreadyExists)
            &&& !(existing matches Some((_, FileKind::Directory))) ==> renaming.following(
                steps.last(),
                existing,
            ) == RenameStep::Done
        }),
{
    let steps = renaming.steps(existing);
    assert forall|i: int| 0 < i < steps.len() implies #[trigger] steps[i] == renaming.following(
        steps[i - 1],
        existing,
    ) by {
        assert(steps.len() <= 5);
    }
}

/// A rename removes the destination first: a file under the new name is removed before anything is
/// renamed, and a directory under it is neither removed nor replaced.
pub proof fn lemma_rename_removes_first(renaming: Renaming, existing: Option<(u32, FileKind)>)
    ensures
        ({
            let steps = renaming.steps(existing);
            let file = existing is Some && !(existing matches Some((_, FileKind::Directory)));
            &&& steps.contains(RenameStep::Remove(renaming.to)) <==> file
            &&& file ==> steps[1] == RenameStep::Remove(renaming.to) && steps[4]
                == RenameStep::Rename
            &&& steps.contains(RenameStep::Rename) <==> !(existing matches Some(
                (_, FileKind::Directory),
            ))
        }),
{
    let steps = renaming.steps(existing);
    match existing {
        Some((_, FileKind::Directory)) => {},
        Some(_) => {
            assert(steps[1] == RenameStep::Remove(renaming.to));
            assert(steps[4] == RenameStep::Rename);
        },
        None => {
            assert(steps[3] == RenameStep::Rename);
        },
    }
}

/// A step of deleting an object.
#[derive(Clone, Copy, Debug, PartialEq, Eq, Structural)]
pub enum DeleteStep {
    /// Begin a mutation of the object.
    Begin,
    /// Forget what is cached of the object.
    Forget,
    /// Remove its file.
    RemoveFile,
    /// Flush the file system.
    Flush,
    /// Note that there is no such object.
    NoteAbsent,
    /// End the mutation of the object.
    Invalidate {
        /// Whether the object is gone for good.
        deleted: bool,
    },
    /// The object is gone.
    Done,
    /// The file system has failed.
    Failed,
}

impl DeleteStep {
    /// The end, the object being gone for good or not.
    pub open spec fn outcome(deleted: bool) -> DeleteStep {
        if deleted {
            DeleteStep::Done
        } else {
            DeleteStep::Failed
        }
    }

    /// The step that follows, where the step could be carried out or not.
    pub open spec fn following(self, carried_out: bool) -> DeleteStep {
        match self {
            DeleteStep::Begin => DeleteStep::Forget,
            DeleteStep::Forget => DeleteStep::RemoveFile,
            DeleteStep::RemoveFile => if carried_out {
                DeleteStep::Flush
            } else {
                DeleteStep::Invalidate { deleted: false }
            },
            DeleteStep::Flush => if carried_out {
                DeleteStep::NoteAbsent
            } else {
                DeleteStep::Invalidate { deleted: false }
            },
            DeleteStep::NoteAbsent => DeleteStep::Invalidate { deleted: true },
            DeleteStep::Invalidate { deleted } => DeleteStep::outcome(deleted),
            DeleteStep::Done => self,
            DeleteStep::Failed => self,
        }
    }

    /// The steps of deleting an object, but for the end, where removing its file and flushing the
    /// file system could be carried out or not.
    pub open spec fn steps(removed: bool, flushed: bool) -> Seq<DeleteStep> {
        if !removed {
            seq![
                DeleteStep::Begin,
                DeleteStep::Forget,
                DeleteStep::RemoveFile,
                DeleteStep::Invalidate { deleted: false },
            ]
        } else if !flushed {
            seq![
                DeleteStep::Begin,
                DeleteStep::Forget,
                DeleteStep::RemoveFile,
                DeleteStep::Flush,
                DeleteStep::Invalidate { deleted: false },
            ]
        } else {
            seq![
                DeleteStep::Begin,
                DeleteStep::Forget,
                DeleteStep::RemoveFile,
                DeleteStep::Flush,
                DeleteStep::NoteAbsent,
                DeleteStep::Invalidate { deleted: true },
            ]
        }
    }

    /// The step that follows, where the step could be carried out or not. Only removing the file
    /// and flushing the file system may fail.
    pub fn next(self, carried_out: bool) -> (step: DeleteStep)
        ensures
            step == self.following(carried_out),
    {
        match self {
            DeleteStep::Begin => DeleteStep::Forget,
            DeleteStep::Forget => DeleteStep::RemoveFile,
            DeleteStep::RemoveFile => {
                if carried_out {
                    DeleteStep::Flush
                } else {
                    DeleteStep::Invalidate { deleted: false }
                }
            },
            DeleteStep::Flush => {
                if carried_out {
                    DeleteStep::NoteAbsent
                } else {
                    DeleteStep::Invalidate { deleted: false }
                }
            },
            DeleteStep::NoteAbsent => DeleteStep::Invalidate { deleted: true },
            DeleteStep::Invalidate { deleted } => {
                if deleted {
                    DeleteStep::Done
                } else {
                    DeleteStep::Failed
                }
            },
            DeleteStep::Done => DeleteStep::Done,
            DeleteStep::Failed => DeleteStep::Failed,
        }
    }
}

/// Whether `step` could be carried out, where removing the file and flushing the file system could
/// be or not.
pub open spec fn delete_answer(step: DeleteStep, removed: bool, flushed: bool) -> bool {
    match step {
        DeleteStep::RemoveFile => removed,
        DeleteStep::Flush => flushed,
        _ => true,
    }
}

/// The steps of deleting an object are those that follow one another from the first one to the end.
pub proof fn lemma_delete_steps_follow(removed: bool, flushed: bool)
    ensures
        ({
            let steps = DeleteStep::steps(removed, flushed);
            &&& steps[0] == DeleteStep::Begin
            &&& forall|i: int|
                0 < i < steps.len() ==> #[trigger] steps[i] == steps[i - 1].following(
                    delete_answer(steps[i - 1], removed, flushed),
                )
            &&& steps.last().following(true) == DeleteStep::outcome(removed && flushed)
        }),
{
    assert(DeleteStep::steps(removed, flushed).len() <= 6);
}

/// Whether a step of deleting the object `id` takes `before` to `after`, where the entry of the
/// object lies in `slot` while its mutation lasts.
pub open spec fn delete_step(
    before: Ext4Store,
    after: Ext4Store,
    step: DeleteStep,
    id: ObjID,
    slot: u64,
) -> bool {
    match step {
        DeleteStep::Begin => before.mutation_begun(after, id, slot),
        DeleteStep::Forget => before.forgotten(after, id),
        DeleteStep::NoteAbsent => {
            &&& after.same_but_lens(before)
            &&& after.lens() == before.lens().insert(id, None)
        },
        DeleteStep::Invalidate { .. } => before.mutation_ended(after, slot),
        _ => after == before,
    }
}

/// Whether step `i` of `steps` takes the store before it to the one behind it.
pub open spec fn delete_step_at(
    steps: Seq<DeleteStep>,
    stores: Seq<Ext4Store>,
    i: int,
    id: ObjID,
    slot: u64,
) -> bool {
    delete_step(stores[i], stores[i + 1], steps[i], id, slot)
}

/// What is cached of an object goes before its file does, so that a failed delete leaves nothing
/// that can no longer be trusted. Once the object is deleted it is known to be absent. However
/// deleting it ends, nothing is known of its extents.
pub proof fn lemma_deleted_is_absent(
    removed: bool,
    flushed: bool,
    stores: Seq<Ext4Store>,
    id: ObjID,
    slot: u64,
)
    requires
        stores.len() == DeleteStep::steps(removed, flushed).len() + 1,
        stores[0].wf(),
        forall|i: int|
            0 <= i < DeleteStep::steps(removed, flushed).len() ==> #[trigger] delete_step_at(
                DeleteStep::steps(removed, flushed),
                stores,
                i,
                id,
                slot,
            ),
        stores[stores.len() - 2].tracker().held()[slot].age() < u64::MAX,
    ensures
        forall|i: int|
            0 <= i < DeleteStep::steps(removed, flushed).len() && DeleteStep::steps(
                removed,
                flushed,
            )[i] == DeleteStep::RemoveFile ==> (#[trigger] stores[i]).knows_nothing_of(id),
        !stores.last().inos().dom().contains(id),
        stores.last().cached_len(id) == if removed && flushed {
            Some(None::<u64>)
        } else {
            None
        },
        stores.last().knows_no_extents_of(id),
{
    let steps = DeleteStep::steps(removed, flushed);
    assert(delete_step_at(steps, stores, 0, id, slot));
    assert(delete_step_at(steps, stores, 1, id, slot));
    assert(delete_step_at(steps, stores, 2, id, slot));
    assert(delete_step_at(steps, stores, 3, id, slot));
    if removed {
        assert(delete_step_at(steps, stores, 4, id, slot));
        if flushed {
            assert(delete_step_at(steps, stores, 5, id, slot));
        }
    }
    let n = steps.len() - 1;
    assert(stores[n].tracker() == stores[1].tracker());
    lemma_ended_mutation_forgets(stores[0], stores[n], stores[n + 1], id, slot);
}

/// Removing a name succeeds exactly where the name may go, has a path, and could be removed. A
/// directory is refused as unsupported where directories are not removed, and as not empty where it
/// is listed and holds anything; nothing else is refused. Whatever else goes wrong is a failure.
pub proof fn lemma_removal_outcome(removal: Removal, answers: RemovalAnswers)
    ensures
        ({
            let directory = answers.existing matches Some((_, FileKind::Directory));
            let end = removal.end(answers);
            &&& end == RemovalStep::Refused(ErrorKind::Unsupported) <==> directory
                && !removal.directories
            &&& end == RemovalStep::Refused(ErrorKind::DirectoryNotEmpty) <==> directory
                && removal.directories && answers.empty == Some(false)
            &&& end == RemovalStep::Done <==> (directory ==> removal.directories && answers.empty
                == Some(true)) && answers.path_found && answers.removed
            &&& end is Done || end is Failed || end is Refused
        }),
{
    match answers.empty {
        Some(empty) => {
            assert(answers.empty == Some(true) <==> empty);
            assert(answers.empty == Some(false) <==> !empty);
        },
        None => {},
    }
}

/// What the steps of removing a name are about is what the name stands for: the directory that was
/// looked up, or whatever the name could be opened as. The name goes exactly where it may and has a
/// path, behind everything that looks and forgets; and where the object is known its removal ends
/// behind that, with the outcome.
pub proof fn lemma_removal_is_of_the_name(removal: Removal, answers: RemovalAnswers)
    ensures
        ({
            let steps = removal.steps(answers);
            let n = steps.len() as int;
            let directory = answers.existing matches Some((_, FileKind::Directory));
            let allowed = directory ==> removal.directories && answers.empty == Some(true);
            let ino = if directory {
                Some(answers.existing.unwrap().0)
            } else {
                answers.opened
            };
            let victim = Victim { ino, directory };
            &&& steps[0] == RemovalStep::FindName(removal.dir)
            &&& directory && removal.directories ==> steps[1] == RemovalStep::List(ino.unwrap())
            &&& directory && !removal.directories ==> n == 1
            &&& !directory ==> steps[1] == RemovalStep::OpenName(removal.dir)
            &&& !allowed ==> n <= 2
            &&& allowed && ino is Some ==> {
                &&& steps[2] == RemovalStep::Forget(victim)
                &&& steps[3] == RemovalStep::FindPath(victim)
                &&& answers.path_found ==> n == 6 && steps[4] == RemovalStep::Remove(victim)
                &&& !answers.path_found ==> n == 5
                &&& steps[n - 1] == (RemovalStep::Invalidate {
                    ino: ino.unwrap(),
                    removed: answers.path_found && answers.removed,
                })
            }
            &&& allowed && ino is None ==> {
                &&& steps[2] == RemovalStep::FindPath(victim)
                &&& answers.path_found ==> n == 4 && steps[3] == RemovalStep::Remove(victim)
                &&& !answers.path_found ==> n == 3
            }
        }),
{
}

/// A directory is empty where every entry is named by one dot or by two.
pub proof fn lemma_only_dots(dirents: Seq<Dirent>)
    ensures
        only_dots(dirents) <==> forall|i: int|
            0 <= i < dirents.len() ==> (#[trigger] dirents[i]).name@ == seq![46u8]
                || dirents[i].name@ == seq![46u8, 46u8],
{
}

/// A rename takes the old name from the directory that it is in to the one that the new name is
/// to be in, and both paths are found before that. Only a file under the new name is removed, and
/// only a directory under it stands in the way.
pub proof fn lemma_rename_goes_from_old_to_new(renaming: Renaming, existing: Option<(u32, FileKind)>)
    ensures
        ({
            let steps = renaming.steps(existing);
            let n = steps.len() as int;
            let directory = existing matches Some((_, FileKind::Directory));
            &&& steps[0] == RenameStep::FindName(renaming.to)
            &&& directory ==> n == 1 && renaming.found_step(existing) == RenameStep::Refused(
                ErrorKind::AlreadyExists,
            )
            &&& existing is None ==> n == 4
            &&& existing is Some && !directory ==> n == 5 && steps[1] == RenameStep::Remove(
                renaming.to,
            )
            &&& !directory ==> steps[n - 3] == RenameStep::FindOldPath(renaming.from) && steps[n
                - 2] == RenameStep::FindNewPath(renaming.to) && steps[n - 1] == RenameStep::Rename
        }),
{
}

/// Deleting an object begins its mutation and forgets what is cached of it before its file is
/// removed, flushes what was removed, and notes the object as absent only once it is gone for good.
/// However it went, the mutation ends last, and with that outcome.
pub proof fn lemma_delete_order(removed: bool, flushed: bool)
    ensures
        ({
            let steps = DeleteStep::steps(removed, flushed);
            let n = steps.len() as int;
            &&& steps[0] is Begin && steps[1] is Forget && steps[2] is RemoveFile
            &&& removed ==> steps[3] is Flush
            &&& removed && flushed ==> steps[4] is NoteAbsent && n == 6
            &&& removed && !flushed ==> n == 5
            &&& !removed ==> n == 4
            &&& steps[n - 1] == (DeleteStep::Invalidate { deleted: removed && flushed })
            &&& DeleteStep::outcome(removed && flushed) == if removed && flushed {
                DeleteStep::Done
            } else {
                DeleteStep::Failed
            }
        }),
{
}

/// Only removing the file and flushing the file system can fail: any other step of deleting an
/// object is followed by the same one either way.
pub proof fn lemma_only_the_file_system_fails(step: DeleteStep)
    ensures
        step.following(true) != step.following(false) ==> step is RemoveFile || step is Flush,
        step is Done || step is Failed ==> step.following(true) == step && step.following(false)
            == step,
{
}

} // verus!
