//! Keeping the key file through a crash.
//!
//! The keys of an epoch are written to `tmp/khf` first. Putting them in force moves the keys in
//! force, `lethe/khf`, to `old/khf`, moves the new ones in their place, and wipes the old ones. A
//! crash can leave any of these steps undone; restoring takes them up again.

use vstd::prelude::*;

verus! {

/// A step of restoring the key file.
#[derive(Clone, Copy, Debug, PartialEq, Eq, Structural)]
pub enum KhfStep {
    /// Rename `lethe/khf` to `old/khf`.
    SaveCurrent,
    /// Rename `tmp/khf` to `lethe/khf`.
    InstallNew,
    /// Rename `old/khf` to `lethe/khf`.
    RevertOld,
    /// Overwrite `old/khf` and remove it.
    WipeOld,
}

/// How a step ended.
#[derive(Clone, Copy, Debug, PartialEq, Eq, Structural)]
pub enum StepOutcome {
    /// It was done.
    Done,
    /// There is no file to move or to remove.
    NotFound,
    /// There is a file already where one was to be moved to.
    AlreadyExists,
    /// Anything else.
    Failed,
}

/// What restoring does next.
#[derive(Clone, Copy, Debug, PartialEq, Eq, Structural)]
pub enum RestoreStep {
    /// This step.
    Take(KhfStep),
    /// Nothing: the key file is restored.
    Done,
    /// Nothing can be done: the step before must not end like this.
    Stuck,
}

/// What restoring starts with, by whether there are `tmp/khf` and `old/khf`.
pub open spec fn first_step(tmp: bool, old_file: bool) -> RestoreStep {
    if tmp && old_file {
        // The previous keys are in `old/khf` already.
        RestoreStep::Take(KhfStep::InstallNew)
    } else if old_file {
        RestoreStep::Take(KhfStep::RevertOld)
    } else if tmp {
        RestoreStep::Take(KhfStep::SaveCurrent)
    } else {
        // How it should be after an epoch.
        RestoreStep::Done
    }
}

/// What follows a step that ended like this.
pub open spec fn following_step(step: KhfStep, outcome: StepOutcome) -> RestoreStep {
    match (step, outcome) {
        (KhfStep::SaveCurrent, StepOutcome::Done) => RestoreStep::Take(KhfStep::InstallNew),
        // It's fine if there are no keys in force: there is about to be a file of them.
        (KhfStep::SaveCurrent, StepOutcome::NotFound) => RestoreStep::Take(KhfStep::InstallNew),
        (KhfStep::InstallNew, StepOutcome::Done) => RestoreStep::Take(KhfStep::WipeOld),
        (KhfStep::RevertOld, StepOutcome::Done) => RestoreStep::Done,
        // Wiping the old keys was all that was left.
        (KhfStep::RevertOld, StepOutcome::AlreadyExists) => RestoreStep::Take(KhfStep::WipeOld),
        (KhfStep::WipeOld, StepOutcome::Done) => RestoreStep::Done,
        (KhfStep::WipeOld, StepOutcome::NotFound) => RestoreStep::Done,
        _ => RestoreStep::Stuck,
    }
}

/// What restoring starts with, by whether there are `tmp/khf` and `old/khf`.
pub fn begin_restore(tmp: bool, old_file: bool) -> (step: RestoreStep)
    ensures
        step == first_step(tmp, old_file),
{
    if tmp && old_file {
        RestoreStep::Take(KhfStep::InstallNew)
    } else if old_file {
        RestoreStep::Take(KhfStep::RevertOld)
    } else if tmp {
        RestoreStep::Take(KhfStep::SaveCurrent)
    } else {
        RestoreStep::Done
    }
}

/// What follows a step that ended like this.
pub fn after_step(step: KhfStep, outcome: StepOutcome) -> (next: RestoreStep)
    ensures
        next == following_step(step, outcome),
{
    match (step, outcome) {
        (KhfStep::SaveCurrent, StepOutcome::Done) => RestoreStep::Take(KhfStep::InstallNew),
        (KhfStep::SaveCurrent, StepOutcome::NotFound) => RestoreStep::Take(KhfStep::InstallNew),
        (KhfStep::InstallNew, StepOutcome::Done) => RestoreStep::Take(KhfStep::WipeOld),
        (KhfStep::RevertOld, StepOutcome::Done) => RestoreStep::Done,
        (KhfStep::RevertOld, StepOutcome::AlreadyExists) => RestoreStep::Take(KhfStep::WipeOld),
        (KhfStep::WipeOld, StepOutcome::Done) => RestoreStep::Done,
        (KhfStep::WipeOld, StepOutcome::NotFound) => RestoreStep::Done,
        _ => RestoreStep::Stuck,
    }
}

/// The key files that there are, each with the keys in it.
pub struct KhfFiles {
    /// `tmp/khf`: the keys of the next epoch.
    pub tmp: Option<int>,
    /// `lethe/khf`: the keys in force.
    pub current: Option<int>,
    /// `old/khf`: the keys of the last epoch.
    pub old_file: Option<int>,
}

impl KhfFiles {
    /// What a step does to the files, and how it ends. A file is not moved onto another one.
    pub open spec fn step(self, step: KhfStep) -> (KhfFiles, StepOutcome) {
        match step {
            KhfStep::SaveCurrent => if self.current is None {
                (self, StepOutcome::NotFound)
            } else if self.old_file is Some {
                (self, StepOutcome::AlreadyExists)
            } else {
                (
                    KhfFiles { current: None, old_file: self.current, ..self },
                    StepOutcome::Done,
                )
            },
            KhfStep::InstallNew => if self.tmp is None {
                (self, StepOutcome::NotFound)
            } else if self.current is Some {
                (self, StepOutcome::AlreadyExists)
            } else {
                (KhfFiles { tmp: None, current: self.tmp, ..self }, StepOutcome::Done)
            },
            KhfStep::RevertOld => if self.old_file is None {
                (self, StepOutcome::NotFound)
            } else if self.current is Some {
                (self, StepOutcome::AlreadyExists)
            } else {
                (
                    KhfFiles { current: self.old_file, old_file: None, ..self },
                    StepOutcome::Done,
                )
            },
            KhfStep::WipeOld => if self.old_file is None {
                (self, StepOutcome::NotFound)
            } else {
                (KhfFiles { old_file: None, ..self }, StepOutcome::Done)
            },
        }
    }

    /// What restoring starts with.
    pub open spec fn first(self) -> RestoreStep {
        first_step(self.tmp is Some, self.old_file is Some)
    }

    /// The keys that are to be in force: the new ones if they were written, else those in force,
    /// else the last ones.
    pub open spec fn wanted(self) -> Option<int> {
        if self.tmp is Some {
            self.tmp
        } else if self.current is Some {
            self.current
        } else {
            self.old_file
        }
    }

    /// Whether the files are such as an epoch, or a crash in the middle of one, leaves them: never
    /// all three.
    pub open spec fn left_by_epoch(self) -> bool {
        !(self.tmp is Some && self.current is Some && self.old_file is Some)
    }

    /// The files once restoring has taken up to `n` steps from `next` on, and what it does next.
    pub open spec fn after_steps(self, next: RestoreStep, n: nat) -> (KhfFiles, RestoreStep)
        decreases n,
    {
        if n == 0 {
            (self, next)
        } else {
            match next {
                RestoreStep::Take(step) => {
                    let (files, outcome) = self.step(step);
                    files.after_steps(following_step(step, outcome), (n - 1) as nat)
                },
                _ => (self, next),
            }
        }
    }
}

/// Restoring ends well within three steps, whatever a crash left: the wanted keys are in force, and
/// no other key file is left.
pub proof fn lemma_restore_succeeds(files: KhfFiles)
    requires
        files.left_by_epoch(),
    ensures
        files.after_steps(files.first(), 3) == (
            KhfFiles { tmp: None, current: files.wanted(), old_file: None },
            RestoreStep::Done,
        ),
{
    reveal_with_fuel(KhfFiles::after_steps, 4);
}

/// A crash while restoring does no harm: after any number of steps the files are again such as
/// restoring can start from, and the same keys are wanted.
pub proof fn lemma_restore_survives_crash(files: KhfFiles, n: nat)
    requires
        files.left_by_epoch(),
        n <= 3,
    ensures
        files.after_steps(files.first(), n).0.left_by_epoch(),
        files.after_steps(files.first(), n).0.wanted() == files.wanted(),
{
    reveal_with_fuel(KhfFiles::after_steps, 4);
}

/// An epoch puts its keys in force: with the keys in force restored, and the new ones written to
/// `tmp/khf`, the files are such as restoring can start from, and the new keys are wanted, before
/// the old ones are wiped as well as after.
pub proof fn lemma_epoch_puts_keys_in_force(files: KhfFiles, keys: int)
    requires
        files.tmp is None,
    ensures
        ({
            let written = KhfFiles { tmp: Some(keys), ..files };
            let wiped = written.step(KhfStep::WipeOld).0;
            &&& files.old_file is None ==> written.left_by_epoch()
            &&& written.wanted() == Some(keys)
            &&& wiped.left_by_epoch()
            &&& wiped.wanted() == Some(keys)
        }),
{
}

/// Restoring goes on from no step that failed. Nor does it go on where a file was to be moved away
/// that another one is in the way of, or where the new keys, or the old ones that are to come back,
/// are not there. A step that was done is always gone on from.
pub proof fn lemma_restore_stops_at_failures(step: KhfStep, outcome: StepOutcome)
    ensures
        outcome is Failed ==> following_step(step, outcome) is Stuck,
        outcome is Done ==> !(following_step(step, outcome) is Stuck),
        outcome is AlreadyExists && !(step is RevertOld) ==> following_step(step, outcome) is Stuck,
        outcome is NotFound && (step is InstallNew || step is RevertOld) ==> following_step(
            step,
            outcome,
        ) is Stuck,
        following_step(step, outcome) is Done ==> step is RevertOld || step is WipeOld,
        following_step(step, outcome) matches RestoreStep::Take(next) ==> {
            &&& step is SaveCurrent ==> next is InstallNew
            &&& !(step is SaveCurrent) ==> next is WipeOld
            &&& !(step is WipeOld)
        },
{
}

/// Restoring has nothing to do exactly where there are neither new keys nor old ones. With new keys
/// it puts them in force, and with old ones alone it brings those back.
pub proof fn lemma_restore_starts_with_what_is_there(tmp: bool, old_file: bool)
    ensures
        first_step(tmp, old_file) is Done <==> !tmp && !old_file,
        first_step(tmp, old_file) == RestoreStep::Take(KhfStep::SaveCurrent) <==> tmp && !old_file,
        first_step(tmp, old_file) == RestoreStep::Take(KhfStep::InstallNew) <==> tmp && old_file,
        first_step(tmp, old_file) == RestoreStep::Take(KhfStep::RevertOld) <==> !tmp && old_file,
{
}

} // verus!
