//! Names in directories, and the paths that they make up.

use vstd::prelude::*;

use crate::error::ErrorKind;

verus! {

/// The inode number of the root directory.
pub const ROOT_INO: u32 = 2;

/// How deep a path may be: a corrupted `..` cycle must terminate, and no legitimate tree is
/// anywhere near this deep.
pub const MAX_DEPTH: usize = 64;

/// What an inode is.
#[derive(Clone, Copy, Debug, PartialEq, Eq, Structural)]
pub enum FileKind {
    /// A file of data.
    Regular,
    /// A directory.
    Directory,
    /// A symbolic link.
    Symlink,
    /// Anything else.
    Other,
}

/// An entry of a directory.
#[derive(Debug)]
pub struct Dirent {
    /// The name: arbitrary bytes.
    pub name: Vec<u8>,
    /// The inode that the name stands for.
    pub ino: u32,
    /// What that inode is.
    pub kind: FileKind,
}

/// `String::from_utf8`: the text whose bytes these are, if they are valid UTF-8.
#[verifier::external_body]
pub(crate) fn text_of(bytes: Vec<u8>) -> (text: Option<String>)
    ensures
        text is Some <==> vstd::utf8::valid_utf8(bytes@),
        text matches Some(s) ==> vstd::utf8::encode_utf8(s@) == bytes@,
{
    String::from_utf8(bytes).ok()
}

/// `.`, in bytes.
pub open spec fn dot() -> Seq<u8> {
    seq![46u8]
}

/// `..`, in bytes.
pub open spec fn dotdot() -> Seq<u8> {
    seq![46u8, 46u8]
}

/// Whether two byte strings are the same.
pub fn same_bytes(a: &[u8], b: &[u8]) -> (same: bool)
    ensures
        same == (a@ == b@),
{
    if a.len() != b.len() {
        return false;
    }
    let mut i: usize = 0;
    while i < a.len()
        invariant
            i <= a.len(),
            a.len() == b.len(),
            forall|j: int| 0 <= j < i ==> a@[j] == b@[j],
        decreases a.len() - i,
    {
        if a[i] != b[i] {
            assert(a@[i as int] != b@[i as int]);
            return false;
        }
        i = i + 1;
    }
    assert(a@ =~= b@);
    true
}

/// A copy of a byte string.
pub fn copy_bytes(bytes: &[u8]) -> (copy: Vec<u8>)
    ensures
        copy@ == bytes@,
{
    let mut copy: Vec<u8> = Vec::new();
    let mut i: usize = 0;
    while i < bytes.len()
        invariant
            i <= bytes.len(),
            copy@ == bytes@.take(i as int),
        decreases bytes.len() - i,
    {
        copy.push(bytes[i]);
        i = i + 1;
        assert(copy@ =~= bytes@.take(i as int));
    }
    assert(copy@ =~= bytes@);
    copy
}

fn is_dot(name: &[u8]) -> (yes: bool)
    ensures
        yes == (name@ == dot()),
{
    let yes = name.len() == 1 && name[0] == 46;
    proof {
        if yes {
            assert(name@ =~= dot());
        }
    }
    yes
}

fn is_dotdot(name: &[u8]) -> (yes: bool)
    ensures
        yes == (name@ == dotdot()),
{
    let yes = name.len() == 2 && name[0] == 46 && name[1] == 46;
    proof {
        if yes {
            assert(name@ =~= dotdot());
        }
    }
    yes
}

/// Whether `i` is the first entry that has this name.
pub open spec fn first_named(dirents: Seq<Dirent>, name: Seq<u8>, i: int) -> bool {
    &&& 0 <= i < dirents.len()
    &&& dirents[i].name@ == name
    &&& forall|j: int| 0 <= j < i ==> (#[trigger] dirents[j]).name@ != name
}

/// Whether an entry names `ino`, other than as `.` or `..`.
pub open spec fn names_child(dirent: Dirent, ino: u32) -> bool {
    dirent.name@ != dot() && dirent.name@ != dotdot() && dirent.ino == ino
}

/// Whether `i` is the first entry that names `ino`, other than as `.` or `..`.
pub open spec fn first_naming(dirents: Seq<Dirent>, ino: u32, i: int) -> bool {
    &&& 0 <= i < dirents.len()
    &&& names_child(dirents[i], ino)
    &&& forall|j: int| 0 <= j < i ==> !names_child(#[trigger] dirents[j], ino)
}

/// The `(inode, kind)` of `name` inside a directory, from the dirents alone.
///
/// Read from the parent's dirents rather than by opening the child: opening a directory or a
/// symlink does not necessarily succeed, and the caller needs the answer precisely for the
/// cases an open would not give it.
pub fn child_entry(dirents: &[Dirent], name: &[u8]) -> (entry: Option<(u32, FileKind)>)
    ensures
        entry is None <==> forall|i: int|
            0 <= i < dirents@.len() ==> (#[trigger] dirents@[i]).name@ != name@,
        entry matches Some((ino, kind)) ==> exists|i: int| #[trigger]
            first_named(dirents@, name@, i) && dirents@[i].ino == ino && dirents@[i].kind == kind,
{
    let mut i: usize = 0;
    while i < dirents.len()
        invariant
            i <= dirents.len(),
            forall|j: int| 0 <= j < i ==> (#[trigger] dirents@[j]).name@ != name@,
        decreases dirents.len() - i,
    {
        if same_bytes(dirents[i].name.as_slice(), name) {
            assert(first_named(dirents@, name@, i as int));
            return Some((dirents[i].ino, dirents[i].kind));
        }
        i = i + 1;
    }
    None
}

/// Whether a directory holds nothing but itself and its parent.
pub fn dir_is_empty(dirents: &[Dirent]) -> (empty: bool)
    ensures
        empty == (forall|i: int|
            0 <= i < dirents@.len() ==> (#[trigger] dirents@[i]).name@ == dot()
                || dirents@[i].name@ == dotdot()),
{
    let mut i: usize = 0;
    while i < dirents.len()
        invariant
            i <= dirents.len(),
            forall|j: int|
                0 <= j < i ==> (#[trigger] dirents@[j]).name@ == dot() || dirents@[j].name@
                    == dotdot(),
        decreases dirents.len() - i,
    {
        if !is_dot(dirents[i].name.as_slice()) && !is_dotdot(dirents[i].name.as_slice()) {
            assert(dirents@[i as int].name@ != dot());
            return false;
        }
        i = i + 1;
    }
    true
}

/// The parent of a directory, from its `..` entry.
pub fn parent_entry(dirents: &[Dirent]) -> (parent: Result<u32, ErrorKind>)
    ensures
        parent is Err <==> forall|i: int|
            0 <= i < dirents@.len() ==> (#[trigger] dirents@[i]).name@ != dotdot(),
        parent matches Err(e) ==> e == ErrorKind::InvalidInput,
        parent matches Ok(ino) ==> exists|i: int| #[trigger]
            first_named(dirents@, dotdot(), i) && dirents@[i].ino == ino,
{
    let mut i: usize = 0;
    while i < dirents.len()
        invariant
            i <= dirents.len(),
            forall|j: int| 0 <= j < i ==> (#[trigger] dirents@[j]).name@ != dotdot(),
        decreases dirents.len() - i,
    {
        if is_dotdot(dirents[i].name.as_slice()) {
            assert(first_named(dirents@, dotdot(), i as int));
            return Ok(dirents[i].ino);
        }
        i = i + 1;
    }
    Err(ErrorKind::InvalidInput)
}

/// How far naming a directory has come.
///
/// ext4 keeps no parent pointer in the inode, but a directory always carries a `..` entry and
/// -- unlike a file -- can have only one link, so walking up and naming each child in its
/// parent yields the one true path.
#[derive(Debug)]
pub struct PathWalk {
    /// The names from the directory up, so far.
    pub parts: Vec<String>,
    /// The directory that is to be named next.
    pub ino: u32,
}

/// What is to be done next.
#[derive(Clone, Copy, Debug, PartialEq, Eq, Structural)]
pub enum PathStep {
    /// The root is reached.
    Done,
    /// List this directory, find its parent, and name it there.
    Climb(u32),
}

/// Names, as text.
pub open spec fn texts(parts: Seq<String>) -> Seq<Seq<char>> {
    Seq::new(parts.len(), |i: int| parts[i]@)
}

/// Names with `/` between them.
pub open spec fn joined(parts: Seq<Seq<char>>) -> Seq<char>
    decreases parts.len(),
{
    if parts.len() == 0 {
        Seq::empty()
    } else if parts.len() == 1 {
        parts[0]
    } else {
        joined(parts.drop_last()) + "/"@ + parts.last()
    }
}

impl PathWalk {
    /// The names, from the directory up.
    pub open spec fn names(self) -> Seq<Seq<char>> {
        texts(self.parts@)
    }

    /// A walk from a directory up.
    pub fn begin(dir_ino: u32) -> (walk: PathWalk)
        ensures
            walk.names() == Seq::<Seq<char>>::empty(),
            walk.ino == dir_ino,
    {
        let walk = PathWalk { parts: Vec::new(), ino: dir_ino };
        assert(walk.names() =~= Seq::empty());
        walk
    }

    /// What is to be done next. A directory too deep down has no path.
    pub fn next(&self) -> (step: Result<PathStep, ErrorKind>)
        ensures
            step == (if self.ino == ROOT_INO {
                Ok::<PathStep, ErrorKind>(PathStep::Done)
            } else if self.names().len() >= MAX_DEPTH {
                Err(ErrorKind::InvalidInput)
            } else {
                Ok(PathStep::Climb(self.ino))
            }),
    {
        if self.ino == ROOT_INO {
            Ok(PathStep::Done)
        } else if self.parts.len() >= MAX_DEPTH {
            Err(ErrorKind::InvalidInput)
        } else {
            Ok(PathStep::Climb(self.ino))
        }
    }

    /// Names the directory in its parent, whose entries are `listing`, and goes on with the parent.
    ///
    /// ext4 names are arbitrary bytes; one that is not UTF-8 cannot be spliced into a path string,
    /// and a lossy conversion would name a different file.
    pub fn climb(&mut self, parent: u32, listing: &[Dirent]) -> (res: Result<(), ErrorKind>)
        ensures
            res is Ok <==> exists|i: int| #[trigger]
                first_naming(listing@, old(self).ino, i) && vstd::utf8::valid_utf8(
                    listing@[i].name@,
                ),
            res matches Err(e) ==> {
                &&& e == ErrorKind::InvalidInput
                &&& final(self).names() == old(self).names()
                &&& final(self).ino == old(self).ino
            },
            res is Ok ==> {
                &&& final(self).ino == parent
                &&& exists|i: int| #[trigger]
                    first_naming(listing@, old(self).ino, i) && final(self).names().len() == old(
                        self).names().len() + 1 && final(self).names().drop_last()
                        == old(self).names() && vstd::utf8::encode_utf8(
                        final(self).names().last(),
                    ) == listing@[i].name@
            },
    {
        let ghost before = self.names();
        let mut i: usize = 0;
        while i < listing.len()
            invariant
                i <= listing.len(),
                *self == *old(self),
                before == old(self).names(),
                forall|j: int| 0 <= j < i ==> !names_child(#[trigger] listing@[j], old(self).ino),
            decreases listing.len() - i,
        {
            let name = listing[i].name.as_slice();
            if !is_dot(name) && !is_dotdot(name) && listing[i].ino == self.ino {
                assert(first_naming(listing@, old(self).ino, i as int));
                match text_of(copy_bytes(name)) {
                    Some(component) => {
                        self.parts.push(component);
                        self.ino = parent;
                        assert(self.names().drop_last() =~= before);
                        return Ok(());
                    },
                    None => {
                        assert forall|k: int| #[trigger]
                            first_naming(listing@, old(self).ino, k) implies k == i by {
                            if k < i {
                                assert(!names_child(listing@[k], old(self).ino));
                            } else if k > i {
                                assert(!names_child(listing@[i as int], old(self).ino));
                            }
                        }
                        return Err(ErrorKind::InvalidInput);
                    },
                }
            }
            i = i + 1;
        }
        Err(ErrorKind::InvalidInput)
    }

    /// The path of `name` in the directory that the walk started from, relative to the root. No
    /// leading slash: the mount point is `/`, and whoever resolves the path prepends it.
    pub fn finish(self, name: &str) -> (path: String)
        ensures
            path@ == joined(self.names().reverse().push(name@)),
    {
        let ghost all = self.names().reverse();
        let mut path = String::new();
        let mut left: usize = self.parts.len();
        while left > 0
            invariant
                left <= self.parts.len(),
                all == self.names().reverse(),
                path@ == joined(all.take(self.parts.len() - left)),
            decreases left,
        {
            let ghost done = self.parts.len() - left;
            proof {
                assert(all.take(done + 1).drop_last() =~= all.take(done));
                assert(all.take(done + 1).last() == self.names()[left - 1]);
            }
            if left < self.parts.len() {
                path.append("/");
                path.append(self.parts[left - 1].as_str());
            } else {
                path.append(self.parts[left - 1].as_str());
                assert(path@ =~= joined(all.take(done + 1)));
            }
            left = left - 1;
        }
        proof {
            assert(all.take(self.parts.len() as int) =~= all);
            assert(all.push(name@).drop_last() =~= all);
        }
        if self.parts.len() > 0 {
            path.append("/");
            path.append(name);
        } else {
            path.append(name);
            assert(path@ =~= joined(all.push(name@)));
        }
        path
    }
}

/// The inode that following `path` from directory `ino` leads to, where `tree` gives the entries
/// of each directory.
pub open spec fn resolved(
    tree: spec_fn(u32) -> Seq<Dirent>,
    ino: u32,
    path: Seq<Seq<char>>,
) -> Option<u32>
    decreases path.len(),
{
    if path.len() == 0 {
        Some(ino)
    } else {
        let name = vstd::utf8::encode_utf8(path[0]);
        if exists|i: int| #[trigger] first_named(tree(ino), name, i) {
            let i = choose|i: int| #[trigger] first_named(tree(ino), name, i);
            resolved(tree, tree(ino)[i].ino, path.drop_first())
        } else {
            None
        }
    }
}

/// Whether no name occurs twice in a directory.
pub open spec fn names_distinct(dirents: Seq<Dirent>) -> bool {
    forall|i: int, j: int|
        0 <= i < j < dirents.len() ==> (#[trigger] dirents[i]).name@ != (#[trigger] dirents[j]).name@
}

/// Whether following the names that a walk has found so far leads from where the walk is to where
/// it started.
pub open spec fn leads_back(
    tree: spec_fn(u32) -> Seq<Dirent>,
    dir_ino: u32,
    names: Seq<Seq<char>>,
    ino: u32,
) -> bool {
    resolved(tree, ino, names.reverse()) == Some(dir_ino)
}

/// A walk that has not been anywhere leads back.
pub proof fn lemma_path_begins(tree: spec_fn(u32) -> Seq<Dirent>, dir_ino: u32)
    ensures
        leads_back(tree, dir_ino, Seq::empty(), dir_ino),
{
    assert(Seq::<Seq<char>>::empty().reverse().len() == 0);
}

/// Naming a directory in its parent keeps a walk leading back: the path of a directory is the one
/// that leads to it.
pub proof fn lemma_path_climbs(
    tree: spec_fn(u32) -> Seq<Dirent>,
    dir_ino: u32,
    names: Seq<Seq<char>>,
    ino: u32,
    parent: u32,
    name: Seq<char>,
    i: int,
)
    requires
        leads_back(tree, dir_ino, names, ino),
        names_distinct(tree(parent)),
        first_naming(tree(parent), ino, i),
        vstd::utf8::encode_utf8(name) == tree(parent)[i].name@,
    ensures
        leads_back(tree, dir_ino, names.push(name), parent),
{
    let path = names.push(name).reverse();
    assert(path[0] == name);
    assert(path.drop_first() =~= names.reverse());
    let bytes = tree(parent)[i].name@;
    assert forall|j: int| 0 <= j < i implies (#[trigger] tree(parent)[j]).name@ != bytes by {}
    assert(first_named(tree(parent), bytes, i));
    let k = choose|k: int| #[trigger] first_named(tree(parent), bytes, k);
    assert(first_named(tree(parent), bytes, k));
    if k != i {
        if k < i {
            assert(tree(parent)[k].name@ != tree(parent)[i].name@);
        } else {
            assert(tree(parent)[i].name@ != tree(parent)[k].name@);
        }
    }
}

/// A walk that has reached the root has the names that lead from the root to where it started.
pub proof fn lemma_path_is_complete(
    tree: spec_fn(u32) -> Seq<Dirent>,
    dir_ino: u32,
    names: Seq<Seq<char>>,
)
    requires
        leads_back(tree, dir_ino, names, ROOT_INO),
    ensures
        resolved(tree, ROOT_INO, names.reverse()) == Some(dir_ino),
{
}

/// The names that stand for a directory itself and for its parent are one dot and two.
pub proof fn lemma_dots()
    ensures
        dot() == seq![46u8],
        dotdot() == seq![46u8, 46u8],
        MAX_DEPTH == 64,
{
}

/// The first entry of a name has that name, and none before it does: there is one at most.
pub proof fn lemma_first_named_is_first(dirents: Seq<Dirent>, name: Seq<u8>, i: int, j: int)
    requires
        first_named(dirents, name, i),
        0 <= j < dirents.len(),
        dirents[j].name@ == name,
    ensures
        0 <= i <= j,
        dirents[i].name@ == name,
        first_named(dirents, name, j) ==> i == j,
{
}

/// The first entry that names an inode stands for it under a name of its own, and none before it
/// does.
pub proof fn lemma_first_naming_is_first(dirents: Seq<Dirent>, ino: u32, i: int, j: int)
    requires
        first_naming(dirents, ino, i),
        0 <= j < dirents.len(),
        dirents[j].ino == ino,
        dirents[j].name@ != seq![46u8],
        dirents[j].name@ != seq![46u8, 46u8],
    ensures
        0 <= i <= j,
        dirents[i].ino == ino,
        dirents[i].name@ != seq![46u8],
        dirents[i].name@ != seq![46u8, 46u8],
{
    if j < i {
        assert(names_child(dirents[j], ino));
    }
}

/// A path in two parts is the one part, a slash, and the other part; and a path of one name is that
/// name.
pub proof fn lemma_joined_concat(a: Seq<Seq<char>>, b: Seq<Seq<char>>, name: Seq<char>)
    requires
        a.len() > 0,
        b.len() > 0,
    ensures
        joined(a + b) == joined(a) + seq!['/'] + joined(b),
        joined(seq![name]) == name,
    decreases b.len(),
{
    reveal_strlit("/");
    assert("/"@ =~= seq!['/']);
    assert((a + b).drop_last() =~= a + b.drop_last());
    if b.len() == 1 {
        assert(a + b.drop_last() =~= a);
    } else {
        lemma_joined_concat(a, b.drop_last(), name);
        assert(joined(a) + seq!['/'] + joined(b.drop_last()) + seq!['/'] + b.last() =~= joined(a)
            + seq!['/'] + (joined(b.drop_last()) + seq!['/'] + b.last()));
    }
}

/// The names of a walk are the texts of its parts, one for one.
pub proof fn lemma_names_are_texts(walk: PathWalk)
    ensures
        walk.names().len() == walk.parts@.len(),
        forall|i: int|
            0 <= i < walk.parts@.len() ==> #[trigger] walk.names()[i] == walk.parts@[i]@,
{
}

} // verus!
