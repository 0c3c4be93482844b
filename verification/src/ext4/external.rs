//! Decisions about external files: files that are named in directories rather than by an object id.

use vstd::prelude::*;

use crate::error::ErrorKind;
use crate::ext4::dirs;
use crate::ext4::dirs::Dirent;
use crate::ext4::dirs::FileKind;
use crate::ext4::dirs::ROOT_INO;
use crate::paged_object_store::open_flags::ExternalOpenFlags;

verus! {

/// The directory that a name is looked up in. Without one it is the root, which is also reachable
/// through the inode numbers below its own. `Some(None)` is an id that is no external one.
pub fn resolve_at(at: Option<Option<u32>>) -> (ino: Result<u32, ErrorKind>)
    ensures
        ino == (match at {
            None => Ok::<u32, ErrorKind>(ROOT_INO),
            Some(None) => Err(ErrorKind::InvalidInput),
            Some(Some(i)) => if i < ROOT_INO {
                Ok(ROOT_INO)
            } else {
                Ok(i)
            },
        }),
{
    match at {
        None => Ok(ROOT_INO),
        Some(None) => Err(ErrorKind::InvalidInput),
        Some(Some(i)) => {
            if i < ROOT_INO {
                Ok(ROOT_INO)
            } else {
                Ok(i)
            }
        },
    }
}

/// The directory that is listed: inode number 0 stands for the root. `None` is an id that is no
/// external one.
pub fn resolve_listed(dir: Option<u32>) -> (ino: Result<u32, ErrorKind>)
    ensures
        ino == (match dir {
            None => Err::<u32, ErrorKind>(ErrorKind::InvalidInput),
            Some(i) => if i == 0 {
                Ok(ROOT_INO)
            } else {
                Ok(i)
            },
        }),
{
    match dir {
        None => Err(ErrorKind::InvalidInput),
        Some(i) => {
            if i == 0 {
                Ok(ROOT_INO)
            } else {
                Ok(i)
            }
        },
    }
}

/// The inode of an external id, `None` standing for an id that is no external one.
pub fn require_external(ino: Option<u32>) -> (res: Result<u32, ErrorKind>)
    ensures
        res == (match ino {
            Some(i) => Ok::<u32, ErrorKind>(i),
            None => Err(ErrorKind::InvalidInput),
        }),
{
    match ino {
        Some(i) => Ok(i),
        None => Err(ErrorKind::InvalidInput),
    }
}

/// How a file is opened in the file system.
#[derive(Clone, Copy, Debug, PartialEq, Eq, Structural)]
pub struct FileFlags {
    /// For reading and writing, rather than for reading only.
    pub read_write: bool,
    /// Created if it is not there.
    pub create: bool,
    /// Emptied.
    pub truncate: bool,
}

/// How an external file is opened in the file system. Only a file that is opened for reading and
/// not for writing is opened read-only.
pub fn open_flags(flags: ExternalOpenFlags) -> (oflags: FileFlags)
    ensures
        oflags == (FileFlags {
            read_write: flags.write || !flags.read,
            create: flags.create,
            truncate: flags.truncate,
        }),
{
    let read_write = if flags.read && flags.write {
        true
    } else if flags.read {
        false
    } else {
        true
    };
    FileFlags { read_write, create: flags.create, truncate: flags.truncate }
}

/// What linking a name to an inode takes.
#[derive(Clone, Copy, Debug, PartialEq, Eq, Structural)]
pub enum LinkPlan {
    /// Nothing: the name stands for the inode already. Unlinking it could free the inode's last
    /// link before the re-link.
    Keep,
    /// Linking the name, which is free.
    Link,
    /// Removing what the name stands for, then linking it.
    Replace,
}

/// What linking a name to inode `target` takes, when the name is `existing` now.
pub fn link_plan(existing: Option<(u32, FileKind)>, target: u32) -> (plan: LinkPlan)
    ensures
        plan == (match existing {
            Some((ino, _)) => if ino == target {
                LinkPlan::Keep
            } else {
                LinkPlan::Replace
            },
            None => LinkPlan::Link,
        }),
{
    match existing {
        Some((ino, _)) => {
            if ino == target {
                LinkPlan::Keep
            } else {
                LinkPlan::Replace
            }
        },
        None => LinkPlan::Link,
    }
}

/// Whether opening a file makes wrong what is known of its extents: truncating frees blocks, and
/// creating can land on an inode recycled from a deleted file.
pub fn open_invalidates(flags: ExternalOpenFlags) -> (yes: bool)
    ensures
        yes == (flags.truncate || flags.create),
{
    flags.truncate || flags.create
}

/// A step of opening an external file.
#[derive(Clone, Copy, Debug, PartialEq, Eq, Structural)]
pub enum OpenStep {
    /// Look the name up in this directory.
    FindName(u32),
    /// Remove the name from this directory.
    Remove(u32),
    /// Link the name in this directory to an inode.
    Link {
        /// The directory.
        dir: u32,
        /// The inode.
        target: u32,
    },
    /// Open the name in this directory.
    Open {
        /// The directory.
        dir: u32,
        /// How to open it.
        flags: FileFlags,
    },
    /// Stamp the present time on the file.
    Stamp,
    /// Forget what is known of the file's extents.
    Invalidate,
    /// The file is open.
    Done,
}

/// How an external file is opened, step by step.
#[derive(Clone, Copy, Debug, PartialEq, Eq, Structural)]
pub struct OpenExternal {
    /// The directory that the name is in.
    pub dir: u32,
    /// How the file is opened.
    pub flags: ExternalOpenFlags,
    /// The inode that the name is linked to first, if any. This is how a rename lands: the name is
    /// taken from whatever it stood for, since a second entry under the same name would leave
    /// lookups resolving to the replaced inode.
    pub target: Option<u32>,
}

impl OpenExternal {
    /// How the file is opened in the file system.
    pub open spec fn file_flags(self) -> FileFlags {
        FileFlags {
            read_write: self.flags.write || !self.flags.read,
            create: self.flags.create,
            truncate: self.flags.truncate,
        }
    }

    /// The step that opens the file.
    pub open spec fn open_step(self) -> OpenStep {
        OpenStep::Open { dir: self.dir, flags: self.file_flags() }
    }

    /// The step that links the name.
    pub open spec fn link_step(self) -> OpenStep {
        match self.target {
            Some(target) => OpenStep::Link { dir: self.dir, target },
            None => self.open_step(),
        }
    }

    /// The step that follows once no time has to be stamped any more.
    pub open spec fn last_step(self) -> OpenStep {
        if self.flags.truncate || self.flags.create {
            OpenStep::Invalidate
        } else {
            OpenStep::Done
        }
    }

    /// Whether a time is stamped on a file whose time is `mtime` when it is opened.
    pub open spec fn stamps(self, mtime: u32) -> bool {
        self.flags.create && (mtime == 0 || self.flags.truncate)
    }

    /// The first step.
    pub open spec fn first_step(self) -> OpenStep {
        if self.target is Some {
            OpenStep::FindName(self.dir)
        } else {
            self.open_step()
        }
    }

    /// The step once the name is looked up, and is `existing`.
    pub open spec fn found_step(self, existing: Option<(u32, FileKind)>) -> OpenStep {
        match existing {
            Some((ino, _)) => if self.target == Some(ino) || self.target is None {
                self.open_step()
            } else {
                OpenStep::Remove(self.dir)
            },
            None => self.link_step(),
        }
    }

    /// The step once the file is open, and its time is `mtime`.
    pub open spec fn opened_step(self, mtime: u32) -> OpenStep {
        if self.stamps(mtime) {
            OpenStep::Stamp
        } else {
            self.last_step()
        }
    }

    /// The step that follows `step`, when the name is `existing` and the file's time is `mtime`.
    pub open spec fn following(
        self,
        step: OpenStep,
        existing: Option<(u32, FileKind)>,
        mtime: u32,
    ) -> OpenStep {
        match step {
            OpenStep::FindName(_) => self.found_step(existing),
            OpenStep::Remove(_) => self.link_step(),
            OpenStep::Link { .. } => self.open_step(),
            OpenStep::Open { .. } => self.opened_step(mtime),
            OpenStep::Stamp => self.last_step(),
            OpenStep::Invalidate => OpenStep::Done,
            OpenStep::Done => OpenStep::Done,
        }
    }

    /// Starts opening a file. `at` is the directory, and `link_to` the inode to link the name to;
    /// `Some(None)` is an id that is no external one.
    pub fn begin(
        at: Option<Option<u32>>,
        flags: ExternalOpenFlags,
        link_to: Option<Option<u32>>,
    ) -> (open: Result<OpenExternal, ErrorKind>)
        ensures
            open is Err <==> at == Some(None::<u32>) || link_to == Some(None::<u32>),
            open matches Err(e) ==> e == ErrorKind::InvalidInput,
            open matches Ok(o) ==> {
                &&& o.flags == flags
                &&& o.dir == (match at {
                    Some(Some(i)) => if i < ROOT_INO {
                        ROOT_INO
                    } else {
                        i
                    },
                    _ => ROOT_INO,
                })
                &&& o.target == (match link_to {
                    Some(target) => target,
                    None => None,
                })
            },
    {
        let dir = resolve_at(at)?;
        let target = match link_to {
            Some(ino) => Some(require_external(ino)?),
            None => None,
        };
        Ok(OpenExternal { dir, flags, target })
    }

    /// The first step.
    pub fn first(&self) -> (step: OpenStep)
        ensures
            step == self.first_step(),
    {
        match self.target {
            Some(_) => OpenStep::FindName(self.dir),
            None => self.to_open(),
        }
    }

    fn to_open(&self) -> (step: OpenStep)
        ensures
            step == self.open_step(),
    {
        OpenStep::Open { dir: self.dir, flags: open_flags(self.flags) }
    }

    /// The step that follows once the name is looked up, and is `existing`.
    pub fn after_find(&self, existing: Option<(u32, FileKind)>) -> (step: OpenStep)
        ensures
            step == self.found_step(existing),
    {
        match self.target {
            Some(target) => {
                match link_plan(existing, target) {
                    LinkPlan::Keep => self.to_open(),
                    LinkPlan::Replace => OpenStep::Remove(self.dir),
                    LinkPlan::Link => OpenStep::Link { dir: self.dir, target },
                }
            },
            None => self.to_open(),
        }
    }

    /// The step that follows once the name is free.
    pub fn after_remove(&self) -> (step: OpenStep)
        ensures
            step == self.link_step(),
    {
        match self.target {
            Some(target) => OpenStep::Link { dir: self.dir, target },
            None => self.to_open(),
        }
    }

    /// The step that follows once the name is linked.
    pub fn after_link(&self) -> (step: OpenStep)
        ensures
            step == self.open_step(),
    {
        self.to_open()
    }

    /// The step that follows once the file is open, and its time is `mtime`.
    pub fn after_open(&self, mtime: u32) -> (step: OpenStep)
        ensures
            step == self.opened_step(mtime),
    {
        if self.flags.create && (mtime == 0 || self.flags.truncate) {
            OpenStep::Stamp
        } else {
            self.after_stamp()
        }
    }

    /// The step that follows once the time is stamped.
    pub fn after_stamp(&self) -> (step: OpenStep)
        ensures
            step == self.last_step(),
    {
        if open_invalidates(self.flags) {
            OpenStep::Invalidate
        } else {
            OpenStep::Done
        }
    }

    /// The steps of opening the file, when the name is `existing` and the file's time is `mtime`.
    pub open spec fn steps(self, existing: Option<(u32, FileKind)>, mtime: u32) -> Seq<OpenStep> {
        let naming = match self.target {
            None => Seq::empty(),
            Some(target) => match existing {
                Some((ino, _)) => if ino == target {
                    seq![OpenStep::FindName(self.dir)]
                } else {
                    seq![
                        OpenStep::FindName(self.dir),
                        OpenStep::Remove(self.dir),
                        self.link_step(),
                    ]
                },
                None => seq![OpenStep::FindName(self.dir), self.link_step()],
            },
        };
        let stamping = if self.stamps(mtime) {
            seq![OpenStep::Stamp]
        } else {
            Seq::empty()
        };
        let ending = if self.flags.truncate || self.flags.create {
            seq![OpenStep::Invalidate]
        } else {
            Seq::empty()
        };
        naming + seq![self.open_step()] + stamping + ending
    }
}

/// The steps of opening a file are those that follow one another from the first one to the end.
pub proof fn lemma_steps_follow(open: OpenExternal, existing: Option<(u32, FileKind)>, mtime: u32)
    ensures
        ({
            let steps = open.steps(existing, mtime);
            &&& steps.len() > 0
            &&& steps[0] == open.first_step()
            &&& forall|i: int|
                0 < i < steps.len() ==> #[trigger] steps[i] == open.following(
                    steps[i - 1],
                    existing,
                    mtime,
                )
            &&& open.following(steps.last(), existing, mtime) == OpenStep::Done
        }),
{
    let steps = open.steps(existing, mtime);
    assert forall|i: int| 0 < i < steps.len() implies #[trigger] steps[i] == open.following(
        steps[i - 1],
        existing,
        mtime,
    ) by {
        assert(steps.len() <= 6);
    }
}

/// Opening a file as one that is linked to an inode never leaves two entries under the name, and
/// never drops the inode's own: the name is removed first exactly where it stands for another inode,
/// and linked exactly where it does not stand for the inode already.
pub proof fn lemma_link_replaces(open: OpenExternal, existing: Option<(u32, FileKind)>, mtime: u32)
    requires
        open.target is Some,
    ensures
        ({
            let steps = open.steps(existing, mtime);
            let other = existing matches Some((ino, _)) && Some(ino) != open.target;
            let same = existing matches Some((ino, _)) && Some(ino) == open.target;
            &&& steps.contains(OpenStep::Remove(open.dir)) <==> other
            &&& steps.contains(open.link_step()) <==> !same
            &&& other ==> steps[1] == OpenStep::Remove(open.dir) && steps[2] == open.link_step()
        }),
{
    let steps = open.steps(existing, mtime);
    match existing {
        Some((ino, _)) => {
            if Some(ino) == open.target {
                assert(steps[0] == OpenStep::FindName(open.dir));
                assert(steps[1] == open.open_step());
            } else {
                assert(steps[1] == OpenStep::Remove(open.dir));
                assert(steps[2] == open.link_step());
            }
        },
        None => {
            assert(steps[0] == OpenStep::FindName(open.dir));
            assert(steps[1] == open.link_step());
            assert(steps[2] == open.open_step());
        },
    }
}

/// Opening a file in a way that frees or recycles blocks ends with forgetting its extents, after
/// the open; no other way of opening does.
pub proof fn lemma_open_forgets_extents(
    open: OpenExternal,
    existing: Option<(u32, FileKind)>,
    mtime: u32,
)
    ensures
        open.flags.truncate || open.flags.create ==> open.steps(existing, mtime).last()
            == OpenStep::Invalidate,
        !(open.flags.truncate || open.flags.create) ==> open.steps(existing, mtime).last()
            == open.open_step(),
{
}

/// What removing a name takes.
#[derive(Clone, Copy, Debug, PartialEq, Eq, Structural)]
pub enum RemovePlan {
    /// Removing the directory with this inode.
    Directory(u32),
    /// Removing a file, or failing to find one.
    File,
}

/// What removing a name takes, when it is `existing`. One entry point for both kinds, because the
/// naming layer has one.
pub fn remove_plan(existing: Option<(u32, FileKind)>) -> (plan: RemovePlan)
    ensures
        plan == (match existing {
            Some((ino, FileKind::Directory)) => RemovePlan::Directory(ino),
            _ => RemovePlan::File,
        }),
{
    match existing {
        Some((ino, FileKind::Directory)) => RemovePlan::Directory(ino),
        _ => RemovePlan::File,
    }
}

/// Whether a name may be removed as a file: not if it is a directory, which removing a file would
/// silently leave where it is.
pub fn check_unlink(existing: Option<(u32, FileKind)>) -> (res: Result<(), ErrorKind>)
    ensures
        res == (match existing {
            Some((_, FileKind::Directory)) => Err::<(), ErrorKind>(ErrorKind::Unsupported),
            _ => Ok(()),
        }),
{
    match existing {
        Some((_, FileKind::Directory)) => Err(ErrorKind::Unsupported),
        _ => Ok(()),
    }
}

/// Whether a directory may be removed: only if it is empty. Removing a directory deletes the whole
/// subtree, and a caller that asked to remove one name must not lose everything under it.
pub fn check_rmdir(dirents: &[Dirent]) -> (res: Result<(), ErrorKind>)
    ensures
        res is Ok <==> forall|i: int|
            0 <= i < dirents@.len() ==> (#[trigger] dirents@[i]).name@ == dirs::dot()
                || dirents@[i].name@ == dirs::dotdot(),
        res matches Err(e) ==> e == ErrorKind::DirectoryNotEmpty,
{
    if dirs::dir_is_empty(dirents) {
        Ok(())
    } else {
        Err(ErrorKind::DirectoryNotEmpty)
    }
}

/// Whether the destination of a rename, as it is now, has to be removed first. Never a directory:
/// that would discard a tree.
pub fn rename_plan(existing: Option<(u32, FileKind)>) -> (replace: Result<bool, ErrorKind>)
    ensures
        replace == (match existing {
            Some((_, FileKind::Directory)) => Err::<bool, ErrorKind>(ErrorKind::AlreadyExists),
            Some(_) => Ok(true),
            None => Ok(false),
        }),
{
    match existing {
        Some((_, FileKind::Directory)) => Err(ErrorKind::AlreadyExists),
        Some(_) => Ok(true),
        None => Ok(false),
    }
}

/// The target of a symbolic link, from the bytes that the file system stores for it.
pub fn link_target(bytes: Vec<u8>, path_max: usize) -> (target: Result<String, ErrorKind>)
    ensures
        target is Ok <==> bytes@.len() <= path_max && vstd::utf8::valid_utf8(bytes@),
        target matches Ok(s) ==> vstd::utf8::encode_utf8(s@) == bytes@,
        target matches Err(e) ==> e == ErrorKind::InvalidData,
{
    if bytes.len() > path_max {
        return Err(ErrorKind::InvalidData);
    }
    match dirs::text_of(bytes) {
        Some(text) => Ok(text),
        None => Err(ErrorKind::InvalidData),
    }
}

/// An entry of a directory as it is handed out.
#[derive(Debug)]
pub struct Listed {
    /// The name.
    pub name: String,
    /// What the name stands for.
    pub kind: FileKind,
    /// The inode that the name stands for.
    pub ino: u32,
}

/// Whether an entry has a name that text can hold. A lossy conversion would not round-trip through
/// a later lookup, so other entries are dropped.
pub open spec fn representable(dirent: Dirent) -> bool {
    vstd::utf8::valid_utf8(dirent.name@)
}

/// How many of the first `n` entries are representable.
pub open spec fn rank(dirents: Seq<Dirent>, n: int) -> int
    decreases n,
{
    if n <= 0 {
        0
    } else {
        rank(dirents, n - 1) + if representable(dirents[n - 1]) {
            1int
        } else {
            0
        }
    }
}

/// The entries among the first `n` that are handed out: the representable ones, without the first
/// `skip` of those and without those past the first `count` of the rest.
pub open spec fn handed_out(dirents: Seq<Dirent>, n: int, skip: int, count: int) -> Seq<Dirent>
    decreases n,
{
    if n <= 0 {
        Seq::empty()
    } else {
        let front = handed_out(dirents, n - 1, skip, count);
        if representable(dirents[n - 1]) && skip <= rank(dirents, n - 1) < skip + count {
            front.push(dirents[n - 1])
        } else {
            front
        }
    }
}

/// Whether an entry is handed out as it stands in the directory.
pub open spec fn hands_out(listed: Listed, dirent: Dirent) -> bool {
    &&& vstd::utf8::encode_utf8(listed.name@) == dirent.name@
    &&& listed.kind == dirent.kind
    &&& listed.ino == dirent.ino
}

/// Lists a directory: up to `count` entries behind the first `skip`. Both count entries that
/// callers are actually handed, so a dropped one does not desynchronize a cursor walking the
/// directory across calls.
///
/// Returns the entries, and how many of the directory's were gone over.
pub fn list_dir(dirents: &[Dirent], skip: usize, count: usize) -> (res: (Vec<Listed>, usize))
    ensures
        res.0@.len() == handed_out(
            dirents@,
            dirents@.len() as int,
            skip as int,
            count as int,
        ).len(),
        forall|i: int|
            0 <= i < res.0@.len() ==> hands_out(
                #[trigger] res.0@[i],
                handed_out(dirents@, dirents@.len() as int, skip as int, count as int)[i],
            ),
        res.1 <= dirents@.len(),
        count == 0 ==> res.1 == 0,
        count > 0 ==> (res.1 == dirents@.len() || rank(dirents@, res.1 as int) == skip + count),
        count > 0 && res.1 > 0 ==> rank(dirents@, res.1 - 1) < skip + count,
{
    let mut entries: Vec<Listed> = Vec::new();
    let mut skipped: usize = 0;
    let mut i: usize = 0;
    let ghost d = dirents@;
    proof {
        if count == 0 {
            lemma_nothing_handed_out(d, d.len() as int, skip as int);
        }
    }
    if count == 0 {
        return (entries, 0);
    }
    while i < dirents.len() && entries.len() < count
        invariant
            i <= dirents.len(),
            d == dirents@,
            count > 0,
            skipped <= skip,
            entries.len() <= count,
            entries.len() > 0 ==> skipped == skip,
            rank(d, i as int) == skipped + entries@.len(),
            entries@.len() == handed_out(d, i as int, skip as int, count as int).len(),
            forall|j: int|
                0 <= j < entries@.len() ==> hands_out(
                    #[trigger] entries@[j],
                    handed_out(d, i as int, skip as int, count as int)[j],
                ),
            i > 0 ==> rank(d, i - 1) < skip + count,
        decreases dirents.len() - i,
    {
        match dirs::text_of(dirs::copy_bytes(dirents[i].name.as_slice())) {
            Some(name) => {
                if skipped < skip {
                    skipped = skipped + 1;
                } else {
                    entries.push(Listed { name, kind: dirents[i].kind, ino: dirents[i].ino });
                }
            },
            None => {},
        }
        i = i + 1;
    }
    proof {
        if i < d.len() {
            lemma_rest_not_handed_out(d, i as int, d.len() as int, skip as int, count as int);
        }
    }
    (entries, i)
}

proof fn lemma_nothing_handed_out(dirents: Seq<Dirent>, n: int, skip: int)
    requires
        n >= 0,
    ensures
        handed_out(dirents, n, skip, 0).len() == 0,
    decreases n,
{
    if n > 0 {
        lemma_nothing_handed_out(dirents, n - 1, skip);
    }
}

proof fn lemma_rest_not_handed_out(dirents: Seq<Dirent>, i: int, n: int, skip: int, count: int)
    requires
        0 <= i <= n,
        rank(dirents, i) >= skip + count,
    ensures
        handed_out(dirents, n, skip, count) == handed_out(dirents, i, skip, count),
        rank(dirents, n) >= skip + count,
    decreases n - i,
{
    if n > i {
        lemma_rest_not_handed_out(dirents, i, n - 1, skip, count);
    }
}

/// Pages of a listing fit together: what is handed out for one page and for the next one is what is
/// handed out for both at once, so that no entry is lost or seen twice.
pub proof fn lemma_pages_fit_together(
    dirents: Seq<Dirent>,
    n: int,
    skip: int,
    first: int,
    second: int,
)
    requires
        n >= 0,
        skip >= 0,
        first >= 0,
        second >= 0,
    ensures
        handed_out(dirents, n, skip, first + second) == handed_out(dirents, n, skip, first)
            + handed_out(dirents, n, skip + first, second),
        rank(dirents, n) <= skip + first ==> handed_out(dirents, n, skip + first, second).len()
            == 0,
    decreases n,
{
    if n > 0 {
        lemma_pages_fit_together(dirents, n - 1, skip, first, second);
        let d = dirents[n - 1];
        let a = handed_out(dirents, n - 1, skip, first);
        let b = handed_out(dirents, n - 1, skip + first, second);
        if representable(d) {
            assert((a + b).push(d) =~= a + b.push(d));
            if b.len() == 0 {
                assert((a + b).push(d) =~= a.push(d) + b);
            }
        }
    } else {
        assert(handed_out(dirents, n, skip, first) + handed_out(dirents, n, skip + first, second)
            =~= handed_out(dirents, n, skip, first + second));
    }
}

/// A file is opened as it was asked for: emptied exactly where truncation was asked for, created
/// exactly where creation was, and read-only exactly where reading was asked for and writing was
/// not -- each of them whatever the other two are, whatever the name stood for, and whether or not
/// it was linked first. It is opened in the directory that was given, once.
pub proof fn lemma_file_is_opened_as_asked(
    open: OpenExternal,
    existing: Option<(u32, FileKind)>,
    mtime: u32,
)
    ensures
        ({
            let steps = open.steps(existing, mtime);
            &&& forall|i: int|
                0 <= i < steps.len() ==> (#[trigger] steps[i] matches OpenStep::Open { dir, flags }
                    ==> {
                    &&& dir == open.dir
                    &&& flags.truncate <==> open.flags.truncate
                    &&& flags.create <==> open.flags.create
                    &&& !flags.read_write <==> open.flags.read && !open.flags.write
                })
            &&& exists|i: int| 0 <= i < steps.len() && #[trigger] steps[i] is Open
            &&& forall|i: int, j: int|
                0 <= i < steps.len() && 0 <= j < steps.len() && #[trigger] steps[i] is Open
                    && #[trigger] steps[j] is Open ==> i == j
        }),
{
    let steps = open.steps(existing, mtime);
    let at: int = match open.target {
        None => 0,
        Some(target) => match existing {
            Some((ino, _)) => if ino == target {
                1
            } else {
                3
            },
            None => 2,
        },
    };
    assert(steps[at] is Open);
}

/// Whatever happened before, a step that opens the file opens it as it was asked for.
pub proof fn lemma_every_open_is_as_asked(
    open: OpenExternal,
    before: OpenStep,
    existing: Option<(u32, FileKind)>,
    mtime: u32,
    step: OpenStep,
)
    requires
        step == open.first_step() || step == open.found_step(existing) || step == open.link_step()
            || step == open.open_step() || step == open.opened_step(mtime) || step
            == open.last_step() || step == open.following(before, existing, mtime),
    ensures
        step matches OpenStep::Open { dir, flags } ==> {
            &&& dir == open.dir
            &&& flags.truncate <==> open.flags.truncate
            &&& flags.create <==> open.flags.create
            &&& !flags.read_write <==> open.flags.read && !open.flags.write
        },
        step matches OpenStep::Link { dir, target } ==> dir == open.dir && open.target == Some(
            target,
        ),
        step matches OpenStep::Remove(dir) ==> dir == open.dir,
        step matches OpenStep::FindName(dir) ==> dir == open.dir && open.target is Some,
{
}

/// A file that is linked to no inode is opened right away, and one that is has its name looked up
/// first. The time is stamped on a file exactly where it was created and has none or was emptied,
/// and only once the file is open; and where the file was created or emptied its extents are
/// forgotten last of all.
pub proof fn lemma_open_follows_the_flags(
    open: OpenExternal,
    existing: Option<(u32, FileKind)>,
    mtime: u32,
)
    ensures
        ({
            let steps = open.steps(existing, mtime);
            let stamped = open.flags.create && (mtime == 0 || open.flags.truncate);
            let forgets = open.flags.create || open.flags.truncate;
            let n = steps.len() as int;
            &&& steps[0] is Open <==> open.target is None
            &&& open.target is Some ==> steps[0] == OpenStep::FindName(open.dir)
            &&& open.target matches Some(target) ==> (existing matches Some((ino, _)) && ino
                != target ==> steps[1] == OpenStep::Remove(open.dir) && steps[2] == (
            OpenStep::Link { dir: open.dir, target }) && steps[3] is Open)
            &&& open.target matches Some(target) ==> (existing is None ==> steps[1] == (
            OpenStep::Link { dir: open.dir, target }) && steps[2] is Open)
            &&& open.target matches Some(target) ==> (existing matches Some((ino, _)) && ino
                == target ==> steps[1] is Open)
            &&& forgets ==> steps[n - 1] is Invalidate
            &&& stamped ==> steps[n - 2] is Stamp && steps[n - 3] is Open
            &&& forgets && !stamped ==> steps[n - 2] is Open
            &&& !forgets ==> steps[n - 1] is Open
            &&& open.stamps(mtime) <==> stamped
            &&& open.last_step() == if forgets {
                OpenStep::Invalidate
            } else {
                OpenStep::Done
            }
        }),
{
}

/// A listing hands out the directory's entries whose names are text, and no other: in the order in
/// which they stand there, behind the first `skip` of them and up to `count`.
pub proof fn lemma_listing_is_the_directory(dirents: Seq<Dirent>, skip: int, count: int)
    requires
        skip >= 0,
        count >= 0,
    ensures
        ({
            let all = dirents.filter(|d: Dirent| vstd::utf8::valid_utf8(d.name@));
            let listed = handed_out(dirents, dirents.len() as int, skip, count);
            &&& skip >= all.len() ==> listed.len() == 0
            &&& skip < all.len() && skip + count >= all.len() ==> listed == all.skip(skip)
            &&& skip + count < all.len() ==> listed == all.subrange(skip, skip + count)
            &&& skip == 0 && count >= dirents.len() ==> listed == all
            &&& rank(dirents, dirents.len() as int) == all.len()
        }),
{
    lemma_listing_of_the_first(dirents, dirents.len() as int, skip, count);
    assert(dirents.take(dirents.len() as int) =~= dirents);
    let all = dirents.filter(|d: Dirent| vstd::utf8::valid_utf8(d.name@));
    dirents.lemma_filter_len(|d: Dirent| vstd::utf8::valid_utf8(d.name@));
    let listed = handed_out(dirents, dirents.len() as int, skip, count);
    if skip < all.len() && skip + count >= all.len() {
        assert(listed =~= all.skip(skip));
    }
    if skip == 0 && count >= dirents.len() {
        assert(listed =~= all);
    }
}

/// Of the first `n` entries those whose names are text are counted, and of those the ones in the
/// window are handed out.
pub proof fn lemma_listing_of_the_first(dirents: Seq<Dirent>, n: int, skip: int, count: int)
    requires
        0 <= n <= dirents.len(),
        skip >= 0,
        count >= 0,
    ensures
        ({
            let all = dirents.take(n).filter(|d: Dirent| vstd::utf8::valid_utf8(d.name@));
            let first = if skip < all.len() {
                skip
            } else {
                all.len() as int
            };
            let last = if skip + count < all.len() {
                skip + count
            } else {
                all.len() as int
            };
            &&& rank(dirents, n) == all.len()
            &&& handed_out(dirents, n, skip, count) == all.subrange(first, last)
        }),
    decreases n,
{
    reveal(Seq::filter);
    let text = |d: Dirent| vstd::utf8::valid_utf8(d.name@);
    if n > 0 {
        lemma_listing_of_the_first(dirents, n - 1, skip, count);
        assert(dirents.take(n).drop_last() =~= dirents.take(n - 1));
        assert(dirents.take(n).last() == dirents[n - 1]);
        let before = dirents.take(n - 1).filter(text);
        let all = dirents.take(n).filter(text);
        if text(dirents[n - 1]) {
            assert(all =~= before.push(dirents[n - 1]));
        } else {
            assert(all =~= before);
        }
        let first = if skip < all.len() {
            skip
        } else {
            all.len() as int
        };
        let last = if skip + count < all.len() {
            skip + count
        } else {
            all.len() as int
        };
        assert(handed_out(dirents, n, skip, count) =~= all.subrange(first, last));
    } else {
        assert(dirents.take(n) =~= Seq::empty());
        assert(dirents.take(n).filter(text).len() == 0);
        assert(handed_out(dirents, n, skip, count) =~= dirents.take(n).filter(text).subrange(0, 0));
    }
}

/// An entry is handed out with the very bytes of its name, and with the kind and the inode that
/// stand beside it.
pub proof fn lemma_entries_keep_what_they_say(listed: Listed, dirent: Dirent)
    ensures
        hands_out(listed, dirent) <==> vstd::utf8::encode_utf8(listed.name@) == dirent.name@
            && listed.kind == dirent.kind && listed.ino == dirent.ino,
        representable(dirent) <==> vstd::utf8::valid_utf8(dirent.name@),
        ROOT_INO == 2,
{
}

} // verus!
