//! What an ext4 object store remembers, and what it decides by that.

use std::collections::HashMap;

use vstd::prelude::*;

use crate::error::ErrorKind;
use crate::ext4::external::FileFlags;
use crate::ext4::walk;
use crate::ext4::walk::BlockWalk;
use crate::ext4::walk::WalkStep;
use crate::extents::extent_map;
use crate::extents::extent_map::Extent;
use crate::extents::object;
use crate::extents::tracker;
use crate::extents::tracker::EntryHold;
use crate::extents::tracker::ExtentTracker;
use crate::extents::tracker::InvalidateOnDrop;
use crate::num;
use crate::paged_object_store::device_page;
use crate::paged_object_store::device_page::DevicePage;
use crate::paged_object_store::request::PageRequest;
use crate::paged_object_store::ObjID;
use crate::paged_object_store::MAYHEAP_LEN;
use crate::text;
use crate::PAGE_SIZE;

verus! {

/// Bytes in a block that the block device is addressed in.
pub const LOGICAL_BSIZE: u32 = 512;

/// Bytes in a block of the medium.
pub const PHYSICAL_BSIZE: u32 = 512;

/// Restores the unconditional flush after every page-out. Kept as a switch so the two can be
/// compared from one build.
pub const PAGE_OUT_ALWAYS_FLUSH: bool = false;

/// Why a page-in would have to take the fs lock.
#[derive(Clone, Copy, Debug, PartialEq, Eq, Structural)]
pub enum ProbeMiss {
    /// The length of the object is not known.
    Len,
    /// The object has no extents to look at.
    NoExtents,
    /// The object's extents do not cover the range.
    Partial,
    /// It would not: everything is cached.
    Cached,
}

/// What an ext4 object store remembers between calls.
#[derive(Debug)]
pub struct Ext4Store {
    ino_cache: HashMap<ObjID, u32>,
    /// `None` records a known-absent object, so a repeated probe costs a hashmap
    /// lookup instead of a directory walk under the fs lock.
    len_cache: HashMap<ObjID, Option<u64>>,
    /// Cached object-page -> disk-block mappings. A request served from here never takes the fs
    /// lock.
    extents: ExtentTracker,
}

/// The logical and the physical blocks that a device of `len` bytes has.
pub fn device_blocks(len: u64) -> (counts: (u64, u64))
    ensures
        counts.0 == len / 512,
        counts.1 == len / 512,
{
    (len / LOGICAL_BSIZE as u64, len / PHYSICAL_BSIZE as u64)
}

/// The byte that a block of the medium starts at, and how many bytes so many blocks have.
pub fn block_bytes(block: u64, count: u32) -> (range: (u64, u64))
    requires
        block * PHYSICAL_BSIZE <= u64::MAX,
    ensures
        range.0 == block * PHYSICAL_BSIZE,
        range.1 == count * PHYSICAL_BSIZE,
{
    (block * PHYSICAL_BSIZE as u64, count as u64 * PHYSICAL_BSIZE as u64)
}

/// How many whole blocks of the medium so many bytes are, in 32 bits.
pub fn bytes_to_blocks(len: usize) -> (blocks: u32)
    ensures
        blocks == (len as int / PHYSICAL_BSIZE as int) % num::two32(),
{
    num::low_u32((len / PHYSICAL_BSIZE as usize) as u64)
}

/// The name of the `n`th block device.
pub fn blockdev_name(n: u64) -> (name: String)
    ensures
        name@ == "blockdev-"@ + text::dec(n as nat),
{
    let mut name = String::new();
    name.append("blockdev-");
    text::append_dec(&mut name, n);
    assert(name@ =~= "blockdev-"@ + text::dec(n as nat));
    name
}

/// The most significant byte of an object id.
pub open spec fn top_byte(id: ObjID) -> nat {
    (id / 0x0100_0000_0000_0000_0000_0000_0000_0000) as nat
}

/// The directory that an internal object is kept in.
pub open spec fn id_dir(id: ObjID) -> Seq<char> {
    "ids/"@ + text::hex(top_byte(id))
}

/// The file that an internal object is kept in.
pub open spec fn id_file(id: ObjID) -> Seq<char> {
    id_dir(id) + "/"@ + text::hex(id as nat)
}

/// Different internal objects are kept in different files.
pub proof fn lemma_id_files_are_distinct(a: ObjID, b: ObjID)
    requires
        id_file(a) == id_file(b),
    ensures
        a == b,
{
    reveal_strlit("ids/");
    reveal_strlit("/");
    let (ta, tb) = (text::hex(top_byte(a)), text::hex(top_byte(b)));
    let (ha, hb) = (text::hex(a as nat), text::hex(b as nat));
    text::lemma_hex_value(top_byte(a));
    text::lemma_hex_value(top_byte(b));
    text::lemma_hex_value(a as nat);
    text::lemma_hex_value(b as nat);
    let (fa, fb) = (id_file(a), id_file(b));
    assert(fa =~= "ids/"@ + ta + "/"@ + ha);
    assert(fa[4 + ta.len() as int] == '/');
    assert(fb[4 + tb.len() as int] == '/');
    assert(forall|i: int| 0 <= i < ta.len() ==> fa[4 + i] == #[trigger] ta[i]);
    assert(forall|i: int| 0 <= i < tb.len() ==> fb[4 + i] == #[trigger] tb[i]);
    if ta.len() < tb.len() {
        assert(tb[ta.len() as int] == '/');
        assert(text::digit_value('/') is None);
    } else if tb.len() < ta.len() {
        assert(ta[tb.len() as int] == '/');
        assert(text::digit_value('/') is None);
    }
    assert(ha =~= fa.skip(5 + ta.len() as int));
    assert(hb =~= fb.skip(5 + tb.len() as int));
    text::lemma_hex_injective(a as nat, b as nat);
}

/// How an object's file is opened.
#[derive(Debug)]
pub enum ObjectOpen {
    /// By the inode number that is cached for it.
    CachedInode(u32),
    /// By the inode number that its id stands for.
    Inode(u32, FileFlags),
    /// By path, after making the directory where one is given.
    Path {
        /// The directory to make first, if any.
        dir: Option<String>,
        /// The path of the file.
        path: String,
        /// How to open it.
        flags: FileFlags,
    },
}

/// What an inode says of its file.
#[derive(Clone, Copy, Debug, PartialEq, Eq, Structural)]
pub struct InodeStat {
    /// How many bytes the file has.
    pub size: u64,
    /// When it was changed last.
    pub mtime: u32,
    /// How many names it has.
    pub links: u32,
}

impl Ext4Store {
    /// The inode numbers that are cached.
    pub closed spec fn inos(self) -> Map<ObjID, u32> {
        self.ino_cache@
    }

    /// The lengths that are cached.
    pub closed spec fn lens(self) -> Map<ObjID, Option<u64>> {
        self.len_cache@
    }

    /// The extents that are cached.
    pub closed spec fn tracker(self) -> ExtentTracker {
        self.extents
    }

    /// Whether the extents are tracked properly.
    pub open spec fn wf(self) -> bool {
        self.tracker().wf()
    }

    /// Whether only the length cache may differ.
    pub open spec fn same_but_lens(self, other: Ext4Store) -> bool {
        self.inos() == other.inos() && self.tracker() == other.tracker()
    }

    /// Whether only the inode cache may differ.
    pub open spec fn same_but_inos(self, other: Ext4Store) -> bool {
        self.lens() == other.lens() && self.tracker() == other.tracker()
    }

    /// Whether only the extents may differ.
    pub open spec fn same_but_extents(self, other: Ext4Store) -> bool {
        self.lens() == other.lens() && self.inos() == other.inos()
    }

    /// Whether `after` is this store once a mutation of an object has begun, whose entry lies in
    /// `slot`.
    pub open spec fn mutation_begun(self, after: Ext4Store, id: ObjID, slot: u64) -> bool {
        &&& after.same_but_extents(self)
        &&& tracker::entered(self.tracker(), after.tracker(), id, slot, true)
    }

    /// Whether `after` is this store once the mutation of the object whose entry lies in `slot` has
    /// ended.
    pub open spec fn mutation_ended(self, after: Ext4Store, slot: u64) -> bool {
        &&& after.same_but_extents(self)
        &&& tracker::let_go_of(self.tracker(), after.tracker(), slot)
        &&& after.tracker().held().dom().contains(slot) ==> self.tracker().held()[slot].bumped_to(
            after.tracker().held()[slot],
        )
    }

    /// Whether `after` is this store without what is cached of an object.
    pub open spec fn forgotten(self, after: Ext4Store, id: ObjID) -> bool {
        &&& after.inos() == self.inos().remove(id)
        &&& after.lens() == self.lens().remove(id)
        &&& after.tracker() == self.tracker()
    }

    /// Whether `after` is this store once a removal of an object has begun, whose entry lies in
    /// `slot`.
    pub open spec fn removal_begun(self, after: Ext4Store, id: ObjID, slot: u64) -> bool {
        &&& after.inos() == self.inos().remove(id)
        &&& after.lens() == self.lens().remove(id)
        &&& tracker::entered(self.tracker(), after.tracker(), id, slot, true)
    }

    /// Whether neither the inode number nor the length of an object is cached.
    pub open spec fn knows_nothing_of(self, id: ObjID) -> bool {
        !self.inos().dom().contains(id) && !self.lens().dom().contains(id)
    }

    /// Whether nothing is known of the extents of an object.
    pub open spec fn knows_no_extents_of(self, id: ObjID) -> bool {
        self.tracker().slot_of(id) matches Some(slot) ==> self.tracker().held()[slot].runs().len()
            == 0
    }

    /// A store on a file system with blocks of `block_size` bytes.
    ///
    /// The paging paths feed block counts into device pages, which then advance a page cursor --
    /// correct only while one page is one block. Fail at mount rather than silently mis-mapping
    /// every request.
    pub fn new(block_size: usize) -> (store: Result<Ext4Store, ErrorKind>)
        ensures
            store is Ok <==> block_size == PAGE_SIZE,
            store matches Err(e) ==> e == ErrorKind::Unsupported,
            store matches Ok(s) ==> {
                &&& s.wf()
                &&& s.inos() == Map::<ObjID, u32>::empty()
                &&& s.lens() == Map::<ObjID, Option<u64>>::empty()
                &&& s.tracker().by_recency() == Seq::<(ObjID, u64)>::empty()
                &&& s.tracker().issued() == 0
            },
    {
        if block_size != PAGE_SIZE {
            return Err(ErrorKind::Unsupported);
        }
        Ok(
            Ext4Store {
                ino_cache: HashMap::new(),
                len_cache: HashMap::new(),
                extents: ExtentTracker::new(),
            },
        )
    }

    /// The length of an object as far as it is cached: `Some(None)` for a known-absent one.
    pub fn get_len_from_cache(&self, id: ObjID) -> (len: Option<Option<u64>>)
        ensures
            len == (if self.lens().dom().contains(id) {
                Some(self.lens()[id])
            } else {
                None
            }),
    {
        match self.len_cache.get(&id) {
            Some(len) => Some(*len),
            None => None,
        }
    }

    /// Whether the length of an object is known without the fs lock.
    pub fn len_is_cached(&self, id: ObjID) -> (cached: bool)
        ensures
            cached == self.lens().dom().contains(id),
    {
        self.get_len_from_cache(id).is_some()
    }

    /// Whether serving this range needs the fs lock, and if so which cache came up short.
    ///
    /// Both inputs answer "yes" when they don't know -- being wrong in that direction only costs
    /// the caller its shortcut. The reason is the point: "this object is unknown to us" and "we
    /// know it, but not this far into it" want opposite fixes.
    pub fn page_in_would_block(&self, id: ObjID, start_page: u64, nr_pages: u32) -> (miss: ProbeMiss)
        requires
            self.wf(),
            self.lens().dom().contains(id) ==> (self.tracker().slot_of(id) matches Some(slot)
                ==> (self.tracker().held()[slot].learned_under()
                == self.tracker().held()[slot].current() ==> start_page + nr_pages <= u64::MAX)),
        ensures
            miss == (if !self.lens().dom().contains(id) {
                ProbeMiss::Len
            } else {
                match self.tracker().slot_of(id) {
                    None => ProbeMiss::NoExtents,
                    Some(slot) => {
                        let o = self.tracker().held()[slot];
                        if o.learned_under() == o.current() && extent_map::served(
                            o.runs(),
                            start_page as int,
                            nr_pages as int,
                            false,
                        ) == nr_pages {
                            ProbeMiss::Cached
                        } else {
                            ProbeMiss::Partial
                        }
                    },
                }
            }),
    {
        if !self.len_is_cached(id) {
            return ProbeMiss::Len;
        }
        match self.extents.peek(id) {
            None => ProbeMiss::NoExtents,
            Some(entry) => {
                if entry.covers(start_page, nr_pages) {
                    ProbeMiss::Cached
                } else {
                    ProbeMiss::Partial
                }
            },
        }
    }

    /// Forgets the length of an object.
    pub fn invalidate_len(&mut self, id: ObjID)
        ensures
            final(self).lens() == old(self).lens().remove(id),
            final(self).same_but_lens(*old(self)),
    {
        let _ = self.len_cache.remove(&id);
    }

    /// Notes the length of an object.
    pub fn set_len_in_cache(&mut self, id: ObjID, len: u64)
        ensures
            final(self).lens() == old(self).lens().insert(id, Some(len)),
            final(self).same_but_lens(*old(self)),
    {
        let _ = self.len_cache.insert(id, Some(len));
    }

    /// Notes that there is no such object.
    pub fn set_absent_in_cache(&mut self, id: ObjID)
        ensures
            final(self).lens() == old(self).lens().insert(id, None),
            final(self).same_but_lens(*old(self)),
    {
        let _ = self.len_cache.insert(id, None);
    }

    /// The directory and the file that an internal object is kept in.
    pub fn get_id_path(&self, id: ObjID) -> (path: (String, String))
        ensures
            path.0@ == id_dir(id),
            path.1@ == id_file(id),
    {
        let top: u128 = id / 0x0100_0000_0000_0000_0000_0000_0000_0000;
        let mut dir = String::new();
        dir.append("ids/");
        text::append_hex(&mut dir, top);
        assert(dir@ =~= id_dir(id));
        let mut file = dir.clone();
        file.append("/");
        text::append_hex(&mut file, id);
        (dir, file)
    }

    /// The inode number that is cached for an object.
    pub fn lookup_ino_cache(&self, id: ObjID) -> (ino: Option<u32>)
        ensures
            ino == (if self.inos().dom().contains(id) {
                Some(self.inos()[id])
            } else {
                None
            }),
    {
        match self.ino_cache.get(&id) {
            Some(ino) => Some(*ino),
            None => None,
        }
    }

    /// Caches the inode number of an object.
    pub fn insert_ino_cache(&mut self, id: ObjID, ino: u32)
        ensures
            final(self).inos() == old(self).inos().insert(id, ino),
            final(self).same_but_inos(*old(self)),
    {
        let _ = self.ino_cache.insert(id, ino);
    }

    /// Forgets the inode number of an object.
    pub fn remove_ino_cache(&mut self, id: ObjID)
        ensures
            final(self).inos() == old(self).inos().remove(id),
            final(self).same_but_inos(*old(self)),
    {
        let _ = self.ino_cache.remove(&id);
    }

    /// How an object's file is opened; `ino` is the inode that an external id stands for.
    ///
    /// The cached inode number is only for opens, never for creates: opening by inode number cannot
    /// carry the truncation that creating implies, and silently returning an untruncated file would
    /// keep stale contents.
    pub fn open_plan(&self, id: ObjID, create: bool, ino: Option<u32>) -> (plan: ObjectOpen)
        ensures
            !create && self.inos().dom().contains(id) ==> plan == ObjectOpen::CachedInode(
                self.inos()[id],
            ),
            create || !self.inos().dom().contains(id) ==> {
                let flags = FileFlags { read_write: true, create, truncate: create };
                match ino {
                    Some(i) => plan == ObjectOpen::Inode(i, flags),
                    None => plan matches ObjectOpen::Path { dir, path, flags: f } && {
                        &&& f == flags
                        &&& path@ == id_file(id)
                        &&& dir is Some <==> create
                        &&& dir matches Some(d) ==> d@ == id_dir(id)
                    },
                }
            },
    {
        if !create {
            if let Some(cached) = self.lookup_ino_cache(id) {
                return ObjectOpen::CachedInode(cached);
            }
        }
        let flags = FileFlags { read_write: true, create, truncate: create };
        if let Some(i) = ino {
            return ObjectOpen::Inode(i, flags);
        }
        let (dir, path) = self.get_id_path(id);
        ObjectOpen::Path {
            dir: if create {
                Some(dir)
            } else {
                None
            },
            path,
            flags,
        }
    }

    /// The length of an object, if the cache can tell: an error for a known-absent one.
    pub fn len_from_cache(&self, id: ObjID) -> (len: Option<Result<u64, ErrorKind>>)
        ensures
            len == (if !self.lens().dom().contains(id) {
                None
            } else {
                match self.lens()[id] {
                    Some(l) => Some(Ok::<u64, ErrorKind>(l)),
                    None => Some(Err::<u64, ErrorKind>(ErrorKind::NotFound)),
                }
            }),
    {
        match self.get_len_from_cache(id) {
            Some(Some(len)) => Some(Ok(len)),
            Some(None) => Some(Err(ErrorKind::NotFound)),
            None => None,
        }
    }

    /// Takes what the file system said of the length of an object.
    ///
    /// Only a confirmed absence is cached, and only for internal ids: a device error must stay
    /// retryable, and an external id is derived from an inode number that is reused after unlink,
    /// so a negative there could outlive the file it described.
    pub fn len_answered(
        &mut self,
        id: ObjID,
        answer: Result<u64, ErrorKind>,
        external: bool,
    ) -> (len: Result<u64, ErrorKind>)
        ensures
            len == answer,
            final(self).same_but_lens(*old(self)),
            final(self).lens() == (match answer {
                Ok(l) => old(self).lens().insert(id, Some(l)),
                Err(e) => if e == ErrorKind::NotFound && !external {
                    old(self).lens().insert(id, None)
                } else {
                    old(self).lens()
                },
            }),
    {
        match answer {
            Ok(l) => {
                self.set_len_in_cache(id, l);
                Ok(l)
            },
            Err(e) => {
                if e == ErrorKind::NotFound && !external {
                    self.set_absent_in_cache(id);
                }
                Err(e)
            },
        }
    }

    /// Starts looking up length, time and links of an external file: its length as far as it is
    /// cached, or an error for a known-absent one.
    pub fn stat_begin(&self, id: ObjID) -> (cached: Result<Option<u64>, ErrorKind>)
        ensures
            cached == (if !self.lens().dom().contains(id) {
                Ok::<Option<u64>, ErrorKind>(None)
            } else {
                match self.lens()[id] {
                    Some(l) => Ok(Some(l)),
                    None => Err(ErrorKind::NotFound),
                }
            }),
    {
        match self.get_len_from_cache(id) {
            Some(Some(len)) => Ok(Some(len)),
            Some(None) => Err(ErrorKind::NotFound),
            None => Ok(None),
        }
    }

    /// Length, time and links of an external file, from its cached length and from its inode. A
    /// cached length is not lost to an inode that cannot be read. An existing file never reports a
    /// time of 0, nor no links.
    pub fn stat_finish(
        &mut self,
        id: ObjID,
        cached: Option<u64>,
        inode: Result<InodeStat, ErrorKind>,
    ) -> (stat: Result<(u64, u32, u32), ErrorKind>)
        ensures
            stat == (match (cached, inode) {
                (Some(len), Ok(i)) => Ok::<(u64, u32, u32), ErrorKind>(
                    (len, num::at_least_one(i.mtime), num::at_least_one(i.links)),
                ),
                (Some(len), Err(_)) => Ok((len, 1u32, 1u32)),
                (None, Ok(i)) => Ok((i.size, num::at_least_one(i.mtime), num::at_least_one(i.links))),
                (None, Err(e)) => Err(e),
            }),
            final(self).same_but_lens(*old(self)),
            final(self).lens() == (if cached is None && inode is Ok {
                old(self).lens().insert(id, Some(inode.unwrap().size))
            } else {
                old(self).lens()
            }),
    {
        match (cached, inode) {
            (Some(len), Ok(i)) => Ok((len, num::floor_to_one(i.mtime), num::floor_to_one(i.links))),
            (Some(len), Err(_)) => Ok((len, 1, 1)),
            (None, Ok(i)) => {
                self.set_len_in_cache(id, i.size);
                Ok((i.size, num::floor_to_one(i.mtime), num::floor_to_one(i.links)))
            },
            (None, Err(e)) => Err(e),
        }
    }

    /// Forgets what is cached of an object that is about to go: the id of an external one is
    /// derived from an inode number, and inode numbers are reused.
    pub fn forget(&mut self, id: ObjID)
        ensures
            old(self).forgotten(*final(self), id),
    {
        self.remove_ino_cache(id);
        self.invalidate_len(id);
    }

    /// Whether a mutation or a request for blocks can be started: each takes the entry of its
    /// object's extents, and there has to be a slot left for that.
    pub fn has_slots(&self) -> (yes: bool)
        ensures
            yes == (self.tracker().issued() < u64::MAX),
    {
        self.extents.has_slots()
    }

    /// Starts a mutation of an object: what is known of its extents is wrong once the mutation is
    /// over, however it ends.
    pub fn begin_mutation(&mut self, id: ObjID) -> (guard: InvalidateOnDrop)
        requires
            old(self).wf(),
            old(self).tracker().issued() < u64::MAX,
        ensures
            final(self).wf(),
            old(self).mutation_begun(*final(self), id, guard.target()),
    {
        self.extents.invalidate_on_drop(id)
    }

    /// Starts a removal of an object: a mutation, at whose start what is cached of the object goes.
    pub fn begin_removal(&mut self, id: ObjID) -> (guard: InvalidateOnDrop)
        requires
            old(self).wf(),
            old(self).tracker().issued() < u64::MAX,
        ensures
            final(self).wf(),
            old(self).removal_begun(*final(self), id, guard.target()),
    {
        let guard = self.begin_mutation(id);
        self.forget(id);
        guard
    }

    /// Ends a mutation of an object.
    pub fn end_mutation(&mut self, guard: InvalidateOnDrop)
        requires
            old(self).wf(),
        ensures
            final(self).wf(),
            old(self).mutation_ended(*final(self), guard.target()),
    {
        guard.release(&mut self.extents);
    }

    /// Starts deleting an object: the file to remove. Its caches go before the outcome is known: a
    /// failed remove must not leave them pointing at an inode or a length we can no longer trust.
    /// An external file is not deleted but unlinked.
    pub fn begin_delete(&mut self, id: ObjID, external: bool) -> (path: Result<String, ErrorKind>)
        ensures
            path is Err <==> external,
            path matches Err(e) ==> e == ErrorKind::Unsupported && *final(self) == *old(self),
            path matches Ok(p) ==> {
                &&& p@ == id_file(id)
                &&& old(self).forgotten(*final(self), id)
            },
    {
        if external {
            return Err(ErrorKind::Unsupported);
        }
        let (_, path) = self.get_id_path(id);
        self.forget(id);
        Ok(path)
    }
}

/// The modification time that an object reports. Only external files carry one, and an existing
/// file never reports 0.
pub fn reported_mtime(external_mtime: Option<u32>) -> (mtime: u32)
    ensures
        mtime == (match external_mtime {
            Some(t) => num::at_least_one(t),
            None => 0,
        }),
{
    match external_mtime {
        Some(t) => num::floor_to_one(t),
        None => 0,
    }
}

/// The modification time to set on an external file. Other objects carry none.
pub fn mtime_to_set(external: bool, mtime: u32) -> (stamp: Result<u32, ErrorKind>)
    ensures
        stamp == (if external {
            Ok::<u32, ErrorKind>(num::at_least_one(mtime))
        } else {
            Err(ErrorKind::Unsupported)
        }),
{
    if external {
        Ok(num::floor_to_one(mtime))
    } else {
        Err(ErrorKind::Unsupported)
    }
}

/// How many names an object has. Only external files can have more than one.
pub fn reported_links(external_links: Option<u32>) -> (links: u32)
    ensures
        links == (match external_links {
            Some(n) => num::at_least_one(n),
            None => 1,
        }),
{
    match external_links {
        Some(n) => num::floor_to_one(n),
        None => 1,
    }
}

/// A walk of the block map for the pages of a request that the cache could not serve.
#[derive(Debug)]
pub struct DiskWalk {
    /// The entry of the object's extents.
    pub entry: EntryHold,
    /// The generation of the object's extents when the walk started. A mutation racing the walk
    /// makes the commit a no-op rather than caching what the walk read.
    pub generation: u64,
    /// Pages that the cache served.
    pub cached: u32,
    /// Whether the object had any valid extents.
    pub warm: bool,
    /// Where the walk stands.
    pub walk: BlockWalk,
    /// What it has learned.
    pub learned: mayheap::Vec<(u64, Option<u64>, u32), MAYHEAP_LEN>,
}

impl DiskWalk {
    /// Whether the walk stands somewhere, and what it has learned can be recorded.
    pub open spec fn wf(self) -> bool {
        &&& self.walk.wf()
        &&& object::all_learnable(walk::learned_extents(self.learned))
    }

    /// Whether only the walk itself and what it has learned may differ.
    pub open spec fn same_request(self, other: DiskWalk) -> bool {
        &&& self.entry == other.entry
        &&& self.generation == other.generation
        &&& self.cached == other.cached
        &&& self.warm == other.warm
    }

    /// What is to be done next.
    pub fn next(&mut self) -> (step: WalkStep)
        requires
            old(self).wf(),
            old(self).walk.lookups < u64::MAX,
        ensures
            final(self).wf(),
            final(self).same_request(*old(self)),
            walk::learned_extents(final(self).learned) == walk::learned_extents(
                old(self).learned,
            ),
            step == old(self).walk.step(),
            final(self).walk == (match step {
                WalkStep::Yield => BlockWalk { in_chunk: 0, ..old(self).walk },
                WalkStep::Lookup { .. } => BlockWalk {
                    in_chunk: (old(self).walk.in_chunk + 1) as usize,
                    lookups: (old(self).walk.lookups + 1) as u64,
                    ..old(self).walk
                },
                WalkStep::Done => old(self).walk,
            }),
    {
        self.walk.next()
    }

    /// Takes what a lookup found.
    pub fn record(
        &mut self,
        pblock: Option<u64>,
        nr: u32,
        out: &mut mayheap::Vec<DevicePage, MAYHEAP_LEN>,
    ) -> (res: Result<(), ErrorKind>)
        requires
            old(self).wf(),
            nr > 0,
            old(self).walk.recordable(pblock, nr, device_page::device_pages(*old(out))),
        ensures
            final(self).wf(),
            final(self).same_request(*old(self)),
            res is Err <==> old(self).walk.create && pblock is None,
            res matches Err(e) ==> {
                &&& e == ErrorKind::Other
                &&& final(self).walk == old(self).walk
                &&& walk::learned_extents(final(self).learned) == walk::learned_extents(
                    old(self).learned,
                )
                &&& device_page::device_pages(*final(out)) == device_page::device_pages(*old(out))
            },
            res is Ok ==> {
                &&& final(self).walk == (BlockWalk {
                    page: (old(self).walk.page + nr) as u64,
                    ..old(self).walk
                })
                &&& walk::learned_extents(final(self).learned) == walk::learned_extents(
                    old(self).learned,
                ).push((old(self).walk.page, pblock, nr))
                &&& device_page::device_pages(*final(out)) == if old(self).walk.page < old(
                    self).walk.end {
                    device_page::pushed(
                        device_page::device_pages(*old(out)),
                        walk::run_of(pblock, old(self).walk.emitted(nr)),
                    )
                } else {
                    device_page::device_pages(*old(out))
                }
            },
            final(self).walk.page < final(self).walk.end && device_page::tail_fits(
                device_page::device_pages(*old(out)),
                old(self).walk.end - old(self).walk.page,
            ) ==> device_page::tail_fits(
                device_page::device_pages(*final(out)),
                final(self).walk.end - final(self).walk.page,
            ),
    {
        let ghost before = walk::learned_extents(self.learned);
        let ghost item = (self.walk.page, pblock, nr);
        let res = self.walk.record(pblock, nr, &mut self.learned, out);
        proof {
            let after = walk::learned_extents(self.learned);
            assert forall|i: int| 0 <= i < after.len() implies object::learnable(
                #[trigger] after[i],
            ) by {
                if i < before.len() {
                    assert(object::learnable(before[i]));
                } else {
                    assert(after[i] == item);
                }
            }
        }
        res
    }
}

/// How a request for the blocks behind pages is answered.
#[derive(Debug)]
pub enum BlockPlan {
    /// No pages were asked for.
    Empty,
    /// The cache served every page.
    Served {
        /// Whether the object had any valid extents.
        warm: bool,
    },
    /// What the cache could not serve lies past the end of the file, and is a hole.
    PastEof {
        /// Pages that the cache served.
        cached: u32,
        /// Pages past the end of the file.
        pages: u32,
        /// Whether the object had any valid extents.
        warm: bool,
    },
    /// The block map has to be walked for what the cache could not serve.
    Walk(DiskWalk),
}

/// Whether `pages` pages from `page` on are answered as a hole past the end of the file, whose
/// length is `len` as far as it is known: only many pages, and only well past the end.
pub open spec fn past_eof(len: Option<Option<u64>>, page: int, pages: int) -> bool {
    &&& len matches Some(Some(l)) && page * PAGE_SIZE >= l + PAGE_SIZE * 8
    &&& pages > 64
}

/// How a request for the blocks behind the `nr` pages from `start` on is answered, and with what in
/// its output, when the object's extents are `entry` and lie in `slot`.
pub open spec fn answers(
    plan: BlockPlan,
    entry: object::ObjectExtents,
    slot: u64,
    len: Option<Option<u64>>,
    start: int,
    nr: int,
    create: bool,
    external: bool,
    before: Seq<DevicePage>,
    after: Seq<DevicePage>,
) -> bool {
    let cached = extent_map::served(entry.runs(), start, nr, create);
    let served = device_page::push_all(
        before,
        extent_map::known_blocks(entry.runs(), start, cached),
    );
    let warm = entry.runs().len() > 0;
    if cached == nr {
        &&& plan == (BlockPlan::Served { warm })
        &&& after == served
    } else if !create && past_eof(len, start + cached, nr - cached) {
        &&& plan == (BlockPlan::PastEof {
            cached: cached as u32,
            pages: (nr - cached) as u32,
            warm,
        })
        &&& after == device_page::pushed(served, DevicePage::Hole((nr - cached) as u32))
    } else {
        &&& plan matches BlockPlan::Walk(w) && {
            &&& w.wf()
            &&& w.entry.slot() == slot
            &&& w.generation == entry.current()
            &&& w.cached == cached
            &&& w.warm == warm
            &&& walk::learned_extents(w.learned) == Seq::<(u64, Option<u64>, u32)>::empty()
            &&& w.walk.page == start + cached
            &&& w.walk.end == start + nr
            &&& w.walk.learn_end == walk::target_of(
                create,
                start + nr,
                len,
                walk::EXTENT_WALK_AHEAD_PAGES as int,
            )
            &&& w.walk.create == create
            &&& w.walk.external == external
            &&& w.walk.in_chunk == 0
            &&& w.walk.lookups == 0
        }
        &&& after == served
        &&& device_page::tail_fits(after, nr - cached)
    }
}

impl Ext4Store {
    /// The length of an object as far as it is cached.
    pub open spec fn cached_len(self, id: ObjID) -> Option<Option<u64>> {
        if self.lens().dom().contains(id) {
            Some(self.lens()[id])
        } else {
            None
        }
    }

    /// Starts filling `out` with the device pages behind object pages
    /// `[start_page, start_page + nr_pages)` of `id`.
    ///
    /// The whole point: a range we already know is served without the fs lock and without an inode
    /// ref. What lies wholly past the end of the file is a hole, with no walk at all; deliberately
    /// not recorded -- the end of a file moves, and recomputing this is free. The object's entry is
    /// held as long as the walk lasts, if there is one.
    pub fn begin_disk_blocks(
        &mut self,
        id: ObjID,
        start_page: u64,
        nr_pages: u32,
        create: bool,
        external: bool,
        out: &mut mayheap::Vec<DevicePage, MAYHEAP_LEN>,
    ) -> (plan: BlockPlan)
        requires
            old(self).wf(),
            nr_pages > 0 ==> old(self).tracker().issued() < u64::MAX,
            nr_pages > 0 ==> start_page + nr_pages <= u64::MAX,
            nr_pages > 0 ==> device_page::tail_fits(
                device_page::device_pages(*old(out)),
                nr_pages as int,
            ),
        ensures
            final(self).wf(),
            final(self).same_but_extents(*old(self)),
            nr_pages == 0 ==> {
                &&& plan == BlockPlan::Empty
                &&& final(self).tracker() == old(self).tracker()
                &&& device_page::device_pages(*final(out)) == device_page::device_pages(*old(out))
            },
            nr_pages > 0 ==> exists|slot: u64| #[trigger]
                tracker::entered(
                    old(self).tracker(),
                    final(self).tracker(),
                    id,
                    slot,
                    plan is Walk,
                ) && answers(
                    plan,
                    final(self).tracker().held()[slot],
                    slot,
                    old(self).cached_len(id),
                    start_page as int,
                    nr_pages as int,
                    create,
                    external,
                    device_page::device_pages(*old(out)),
                    device_page::device_pages(*final(out)),
                ),
    {
        if nr_pages == 0 {
            return BlockPlan::Empty;
        }
        let ghost before = device_page::device_pages(*out);
        let hold = self.extents.entry(id);
        let ghost slot = hold.slot();
        proof {
            self.extents.lemma_wf();
        }
        let (cached, warm, generation) = match self.extents.object(&hold) {
            Some(entry) => {
                let (cached, warm) = entry.emit(start_page, nr_pages, create, out);
                (cached, warm, entry.generation())
            },
            None => (0, false, 0),
        };
        let ghost between = self.tracker();
        let ghost entry = between.held()[slot];
        proof {
            lemma_served_tail(
                entry.runs(),
                before,
                start_page as int,
                nr_pages as int,
                cached as int,
                create,
            );
        }
        if cached == nr_pages {
            self.extents.let_go(hold);
            proof {
                tracker::lemma_visited(old(self).tracker(), between, self.tracker(), id, slot);
            }
            let plan = BlockPlan::Served { warm };
            assert(tracker::entered(old(self).tracker(), self.tracker(), id, slot, plan is Walk));
            return plan;
        }
        let page: u64 = start_page + cached as u64;
        let end: u64 = start_page + nr_pages as u64;
        let len = self.get_len_from_cache(id);
        if !create {
            if let Some(Some(max_len)) = len {
                let pages: u32 = (end - page) as u32;
                if pages > 64 && page as u128 * PAGE_SIZE as u128 >= max_len as u128 + PAGE_SIZE as u128
                    * 8 {
                    proof {
                        device_page::lemma_pushed_tail(
                            device_page::device_pages(*out),
                            DevicePage::Hole(pages),
                            nr_pages - cached,
                        );
                    }
                    device_page::push_device_page(out, DevicePage::Hole(pages));
                    self.extents.let_go(hold);
                    proof {
                        tracker::lemma_visited(
                            old(self).tracker(),
                            between,
                            self.tracker(),
                            id,
                            slot,
                        );
                    }
                    let plan = BlockPlan::PastEof { cached, pages, warm };
                    assert(tracker::entered(
                        old(self).tracker(),
                        self.tracker(),
                        id,
                        slot,
                        plan is Walk,
                    ));
                    return plan;
                }
            }
        }
        let walk = BlockWalk::begin(page, end, create, external, len);
        let plan = BlockPlan::Walk(
            DiskWalk { entry: hold, generation, cached, warm, walk, learned: walk::new_learned() },
        );
        assert(tracker::entered(old(self).tracker(), self.tracker(), id, slot, plan is Walk));
        plan
    }

    /// Ends a walk of the block map: records whatever it did establish, even where it failed --
    /// that was read under the fs lock and is no less true for the walk having stopped. Where the
    /// object lost its place meanwhile, its entry is filled all the same, and then goes.
    ///
    /// Returns how often the object was too fragmented to track.
    pub fn finish_disk_blocks(&mut self, done: DiskWalk) -> (clears: u64)
        requires
            old(self).wf(),
            done.wf(),
        ensures
            final(self).wf(),
            final(self).same_but_extents(*old(self)),
            tracker::let_go_of(old(self).tracker(), final(self).tracker(), done.entry.slot()),
            !old(self).tracker().held().dom().contains(done.entry.slot()) ==> clears == 0,
            old(self).tracker().held().dom().contains(done.entry.slot()) ==> {
                let before = old(self).tracker().held()[done.entry.slot()];
                let learned = walk::learned_extents(done.learned);
                &&& clears == before.clears(done.generation, learned)
                &&& final(self).tracker().held().dom().contains(done.entry.slot())
                    ==> before.committed_to(
                    final(self).tracker().held()[done.entry.slot()],
                    done.generation,
                    learned,
                )
            },
    {
        let learned = walk::learned_slice(&done.learned);
        let clears = self.extents.commit(&done.entry, done.generation, learned);
        self.extents.let_go(done.entry);
        clears
    }

    /// Notes that an external file was opened in a way that makes wrong what is known of its
    /// extents.
    pub fn invalidate_extents(&mut self, id: ObjID)
        requires
            old(self).wf(),
            old(self).tracker().issued() < u64::MAX,
        ensures
            final(self).wf(),
            final(self).same_but_extents(*old(self)),
            exists|between: ExtentTracker, slot: u64| #[trigger]
                tracker::entered(old(self).tracker(), between, id, slot, true)
                    && tracker::let_go_of(between, final(self).tracker(), slot)
                    && between.held()[slot].bumped_to(final(self).tracker().held()[slot]),
    {
        let guard = self.extents.invalidate_on_drop(id);
        let ghost between = self.extents;
        proof {
            between.lemma_wf();
        }
        guard.release(&mut self.extents);
        proof {
            tracker::lemma_visited(
                old(self).tracker(),
                between,
                self.tracker(),
                id,
                guard.target(),
            );
            assert(tracker::entered(old(self).tracker(), between, id, guard.target(), true));
        }
    }
}

proof fn lemma_served_tail(
    runs: Seq<(u64, Extent)>,
    before: Seq<DevicePage>,
    start: int,
    nr: int,
    cached: int,
    create: bool,
)
    requires
        extent_map::ordered(runs),
        device_page::tail_fits(before, nr),
        nr >= 0,
        cached == extent_map::served(runs, start, nr, create),
    ensures
        0 <= cached <= nr,
        device_page::tail_fits(
            device_page::push_all(before, extent_map::known_blocks(runs, start, cached)),
            nr - cached,
        ),
{
    extent_map::lemma_served(runs, start, nr, create);
    let blocks = extent_map::known_blocks(runs, start, cached);
    assert forall|i: int| 0 <= i < blocks.len() implies ((#[trigger] blocks[i]) matches Some(b)
        ==> 0 <= b < u64::MAX) by {
        assert(extent_map::servable(runs, start + i, create));
        extent_map::lemma_known_block(runs, start + i);
    }
    device_page::lemma_push_all_tail(before, blocks, nr);
}

/// What the cache serves is true: with nothing false known of an object, the pages served from the
/// cache lie on the blocks that they really lie on.
pub proof fn lemma_cached_blocks_are_true(
    truth: spec_fn(int) -> Option<int>,
    runs: Seq<(u64, Extent)>,
    before: Seq<DevicePage>,
    start: int,
    nr: int,
    create: bool,
)
    requires
        extent_map::ordered(runs),
        object::faithful(runs, truth),
        device_page::tail_fits(before, nr),
        nr >= 0,
    ensures
        ({
            let cached = extent_map::served(runs, start, nr, create);
            let served = device_page::push_all(
                before,
                extent_map::known_blocks(runs, start, cached),
            );
            &&& device_page::backing(served) == device_page::backing(before) + walk::true_blocks(
                truth,
                start,
                start + cached,
            )
            &&& create && device_page::no_holes(before) ==> device_page::no_holes(served)
        }),
{
    let cached = extent_map::served(runs, start, nr, create);
    extent_map::lemma_served(runs, start, nr, create);
    let blocks = extent_map::known_blocks(runs, start, cached);
    assert forall|i: int| 0 <= i < blocks.len() implies #[trigger] blocks[i] == truth(start + i)
        && (blocks[i] matches Some(b) ==> 0 <= b < u64::MAX) && (create ==> blocks[i] is Some) by {
        assert(extent_map::servable(runs, start + i, create));
        assert(extent_map::known(runs, start + i) is Some);
        extent_map::lemma_known_block(runs, start + i);
    }
    assert(blocks =~= walk::true_blocks(truth, start, start + cached));
    device_page::lemma_push_all_backing(before, blocks);
    if create && device_page::no_holes(before) {
        device_page::lemma_push_all_no_holes(before, blocks);
    }
}

/// A request is answered with the truth: the output gets the block behind every page of the range,
/// in order, whether the cache served it, or it lies past the end of the file, or the block map was
/// walked for it -- and it gets no hole when blocks were to be allocated.
pub proof fn lemma_disk_blocks_are_true(
    truth: spec_fn(int) -> Option<int>,
    plan: BlockPlan,
    entry: object::ObjectExtents,
    slot: u64,
    len: Option<Option<u64>>,
    start: int,
    nr: int,
    create: bool,
    external: bool,
    before: Seq<DevicePage>,
    after: Seq<DevicePage>,
    done: BlockWalk,
    learned: Seq<(u64, Option<u64>, u32)>,
    out: Seq<DevicePage>,
)
    requires
        entry.wf(),
        object::faithful(entry.runs(), truth),
        device_page::tail_fits(before, nr),
        nr > 0,
        answers(plan, entry, slot, len, start, nr, create, external, before, after),
        plan is PastEof ==> (forall|page: int|
            #![trigger truth(page)]
            start + extent_map::served(entry.runs(), start, nr, create) <= page < start + nr
                ==> truth(page) is None),
        plan is Walk ==> {
            &&& done.wf()
            &&& done.step() is Done
            &&& done.end == start + nr
            &&& done.create == create
            &&& walk::walked(
                truth,
                start + extent_map::served(entry.runs(), start, nr, create),
                done,
                learned,
                after,
                out,
            )
        },
        plan !is Walk ==> out == after,
    ensures
        device_page::backing(out) == device_page::backing(before) + walk::true_blocks(
            truth,
            start,
            start + nr,
        ),
        create && device_page::no_holes(before) ==> device_page::no_holes(out),
{
    let runs = entry.runs();
    let cached = extent_map::served(runs, start, nr, create);
    let served = device_page::push_all(before, extent_map::known_blocks(runs, start, cached));
    lemma_cached_blocks_are_true(truth, runs, before, start, nr, create);
    lemma_served_tail(runs, before, start, nr, cached, create);
    let front = walk::true_blocks(truth, start, start + cached);
    let back = walk::true_blocks(truth, start + cached, start + nr);
    assert(front + back =~= walk::true_blocks(truth, start, start + nr));
    if cached == nr {
        assert(back =~= Seq::empty());
        assert(front + back =~= front);
    } else if !create && past_eof(len, start + cached, nr - cached) {
        let hole = DevicePage::Hole((nr - cached) as u32);
        device_page::lemma_pushed_tail(served, hole, nr - cached);
        device_page::lemma_pushed_backing(served, hole);
        assert(hole.blocks() =~= back);
        assert(device_page::backing(before) + front + back =~= device_page::backing(before) + (front
            + back));
    } else {
        walk::lemma_walk_is_complete(truth, start + cached, done, learned, after, out);
        assert(device_page::backing(before) + front + back =~= device_page::backing(before) + (front
            + back));
    }
}

/// A probe that found everything cached is right: the request that follows it is served from the
/// cache, without the fs lock.
pub proof fn lemma_cached_probe_is_right(
    before: ExtentTracker,
    after: ExtentTracker,
    id: ObjID,
    slot: u64,
    entered: u64,
    plan: BlockPlan,
    len: Option<Option<u64>>,
    start: int,
    nr: int,
    external: bool,
    pages: Seq<DevicePage>,
    out: Seq<DevicePage>,
)
    requires
        before.slot_of(id) == Some(slot),
        extent_map::served(before.held()[slot].runs(), start, nr, false) == nr,
        tracker::entered(before, after, id, entered, plan is Walk),
        answers(
            plan,
            after.held()[entered],
            entered,
            len,
            start,
            nr,
            false,
            external,
            pages,
            out,
        ),
    ensures
        plan is Served,
{
}

/// A repeated request is served from the cache: once a walk for what the cache could not serve is
/// over and recorded, the same range is served whole -- unless recording it found the object too
/// fragmented to track.
pub proof fn lemma_repeated_request_is_served(
    truth: spec_fn(int) -> Option<int>,
    runs: Seq<(u64, Extent)>,
    start: int,
    nr: int,
    create: bool,
    done: BlockWalk,
    learned: Seq<(u64, Option<u64>, u32)>,
    after: Seq<DevicePage>,
    out: Seq<DevicePage>,
)
    requires
        extent_map::ordered(runs),
        nr >= 0,
        done.wf(),
        done.step() is Done,
        done.end == start + nr,
        done.create == create,
        walk::walked(
            truth,
            start + extent_map::served(runs, start, nr, create),
            done,
            learned,
            after,
            out,
        ),
        object::overflow_count(runs, learned) == 0,
    ensures
        extent_map::served(object::inserted_all(runs, learned), start, nr, create) == nr,
{
    let cached = extent_map::served(runs, start, nr, create);
    let now = object::inserted_all(runs, learned);
    extent_map::lemma_served(runs, start, nr, create);
    extent_map::lemma_served(now, start, nr, create);
    let n = extent_map::served(now, start, nr, create);
    if n < nr {
        if n < cached {
            assert(extent_map::servable(runs, start + n, create));
        } else {
            assert(object::learned_covers(learned, start + n));
        }
        object::lemma_commit_serves(runs, learned, start + n, create);
    }
}

/// The end of the pages of a request.
pub open spec fn request_end(request: PageRequest) -> int {
    request.start_page as u64 + request.nr_pages
}

/// The highest end of the pages of requests.
pub open spec fn highest_end(requests: Seq<PageRequest>) -> int
    decreases requests.len(),
{
    if requests.len() == 0 {
        0
    } else {
        let front = highest_end(requests.drop_last());
        let last = request_end(requests.last());
        if last > front {
            last
        } else {
            front
        }
    }
}

/// The highest end of the pages of requests.
pub fn highest_request_end(requests: &[PageRequest]) -> (highest: u64)
    requires
        forall|i: int|
            0 <= i < requests@.len() ==> request_end(#[trigger] requests@[i]) <= u64::MAX,
    ensures
        highest == highest_end(requests@),
{
    let mut highest: u64 = 0;
    let mut i: usize = 0;
    while i < requests.len()
        invariant
            i <= requests.len(),
            forall|j: int|
                0 <= j < requests@.len() ==> request_end(#[trigger] requests@[j]) <= u64::MAX,
            highest == highest_end(requests@.take(i as int)),
        decreases requests.len() - i,
    {
        assert(request_end(requests@[i as int]) <= u64::MAX);
        let end: u64 = requests[i].start_page as u64 + requests[i].nr_pages as u64;
        proof {
            assert(requests@.take(i + 1).drop_last() =~= requests@.take(i as int));
            assert(requests@.take(i + 1).last() == requests@[i as int]);
        }
        if end > highest {
            highest = end;
        }
        i = i + 1;
    }
    assert(requests@.take(i as int) =~= requests@);
    highest
}

/// The end that paging out the requests gives to the object, if it gives one.
///
/// The page requests only bound the length from above: they end at a page boundary, so the real
/// length is preferred whenever the caller has one.
pub open spec fn page_out_end_of(
    true_len: Option<u64>,
    requests: Seq<PageRequest>,
    external: bool,
) -> Option<int> {
    match true_len {
        Some(len) => Some(len as int),
        None => if requests.len() == 0 {
            None
        } else {
            Some(walk::block_of(external, highest_end(requests)) * PAGE_SIZE)
        },
    }
}

/// See [`page_out_end_of`].
pub fn page_out_end(true_len: Option<u64>, requests: &[PageRequest], external: bool) -> (end: Option<
    u64,
>)
    requires
        true_len is None ==> forall|i: int|
            0 <= i < requests@.len() ==> request_end(#[trigger] requests@[i]) <= u64::MAX,
        true_len is None ==> walk::block_of(external, highest_end(requests@)) * PAGE_SIZE
            <= u64::MAX,
    ensures
        end is Some <==> page_out_end_of(true_len, requests@, external) is Some,
        end matches Some(e) ==> Some(e as int) == page_out_end_of(true_len, requests@, external),
        true_len is Some ==> end == true_len,
{
    if let Some(len) = true_len {
        return Some(len);
    }
    if requests.len() == 0 {
        return None;
    }
    let highest: u64 = highest_request_end(requests);
    Some(walk::page_to_block(external, highest) * PAGE_SIZE as u64)
}

proof fn lemma_highest_end(requests: Seq<PageRequest>, i: int)
    requires
        0 <= i < requests.len(),
    ensures
        request_end(requests[i]) <= highest_end(requests),
    decreases requests.len(),
{
    if i < requests.len() - 1 {
        lemma_highest_end(requests.drop_last(), i);
    }
}

/// The end that paging out gives to an object covers the block of every page that is paged out, so
/// that nothing is written past the end of the file. Page 0 of an external file has no block of its
/// own.
pub proof fn lemma_page_out_end_covers(
    requests: Seq<PageRequest>,
    external: bool,
    i: int,
    page: int,
)
    requires
        0 <= i < requests.len(),
        requests[i].start_page as u64 <= page < request_end(requests[i]),
        external ==> page > 0,
    ensures
        page_out_end_of(None, requests, external) matches Some(end) && (walk::block_of(
            external,
            page,
        ) + 1) * PAGE_SIZE <= end,
{
    lemma_highest_end(requests, i);
}

/// The size to set on an object's file of `file_len` bytes before paging out to `end`, if it does
/// not reach that far: it has to cover the pages about to be written.
pub fn page_out_size(end: Option<u64>, file_len: u64) -> (size: Option<u64>)
    ensures
        size == (match end {
            Some(e) => if e > file_len {
                Some(e)
            } else {
                None
            },
            None => None,
        }),
{
    match end {
        Some(e) => {
            if e > file_len {
                Some(e)
            } else {
                None
            }
        },
        None => None,
    }
}

/// Whether paging out ends with a flush.
pub fn page_out_flushes(extended: bool) -> (flushes: bool)
    ensures
        flushes == extended,
{
    PAGE_OUT_ALWAYS_FLUSH || extended
}

/// Whether a write at `offset` needs the file to be filled up to there first.
pub fn write_needs_backing(offset: u64, file_len: u64) -> (yes: bool)
    ensures
        yes == (offset > file_len),
{
    offset > file_len
}

/// How reading `wanted` bytes goes on after `got` more came, with `total` read before that: the new
/// total, and whether to read on. Nothing coming means the end of the file, which is no error.
pub fn read_progress(total: usize, got: usize, wanted: usize) -> (progress: (usize, bool))
    requires
        total + got <= usize::MAX,
    ensures
        progress.0 == total + got,
        progress.1 == (got > 0 && total + got < wanted),
{
    let now: usize = total + got;
    (now, got > 0 && now < wanted)
}

/// A true length is the end that paging out gives, to the byte: whatever is paged out, and whether
/// or not the file is an external one.
pub proof fn lemma_true_length_is_the_end(len: u64, requests: Seq<PageRequest>, external: bool)
    ensures
        page_out_end_of(Some(len), requests, external) == Some(len as int),
{
}

/// Without a true length the end is that of the last page that is paged out, in bytes, a page less
/// in an external file: one of the requests ends there, and none goes farther. With nothing to page
/// out there is no end.
pub proof fn lemma_page_out_ends_with_a_request(requests: Seq<PageRequest>, external: bool)
    ensures
        requests.len() == 0 ==> page_out_end_of(None, requests, external) is None,
        requests.len() > 0 ==> exists|i: int|
            #![trigger requests[i]]
            0 <= i < requests.len() && {
                let last = requests[i].start_page as u64 + requests[i].nr_pages;
                &&& forall|j: int|
                    #![trigger requests[j]]
                    0 <= j < requests.len() ==> requests[j].start_page as u64
                        + requests[j].nr_pages <= last
                &&& external && last > 0 ==> page_out_end_of(None, requests, external) == Some(
                    (last - 1) * 4096,
                )
                &&& !external || last == 0 ==> page_out_end_of(None, requests, external) == Some(
                    last * 4096,
                )
            },
{
    if requests.len() > 0 {
        let i = lemma_highest_end_is_one(requests);
        assert forall|j: int| #![trigger requests[j]] 0 <= j < requests.len() implies {
            requests[j].start_page as u64 + requests[j].nr_pages <= highest_end(requests)
        } by {
            lemma_highest_end(requests, j);
        }
        assert(0 <= i < requests.len() && requests[i].start_page as u64 + requests[i].nr_pages
            == highest_end(requests));
    }
}

proof fn lemma_highest_end_is_one(requests: Seq<PageRequest>) -> (i: int)
    requires
        requests.len() > 0,
    ensures
        0 <= i < requests.len(),
        request_end(requests[i]) == highest_end(requests),
    decreases requests.len(),
{
    let front = requests.drop_last();
    if front.len() > 0 && request_end(requests.last()) <= highest_end(front) {
        let i = lemma_highest_end_is_one(front);
        assert(front[i] == requests[i]);
        i
    } else {
        if front.len() == 0 {
            assert(highest_end(front) == 0);
        }
        requests.len() - 1
    }
}

/// A request for blocks is planned for the range that was asked for. What the cache serves is at
/// the front of it. The rest is a hole only for reading more than 64 pages, the first of them eight
/// pages or more past the end of the file; otherwise it is walked, from the first page that the
/// cache could not serve to the end of the request and no farther, in the file that the request is
/// for.
pub proof fn lemma_plan_is_for_the_request(
    plan: BlockPlan,
    entry: object::ObjectExtents,
    slot: u64,
    len: Option<Option<u64>>,
    start: int,
    nr: int,
    create: bool,
    external: bool,
    before: Seq<DevicePage>,
    after: Seq<DevicePage>,
)
    requires
        entry.wf(),
        0 <= start,
        0 < nr <= u32::MAX,
        answers(plan, entry, slot, len, start, nr, create, external, before, after),
    ensures
        plan !is Empty,
        plan matches BlockPlan::Served { warm } ==> (warm <==> entry.runs().len() > 0),
        plan is Served <==> forall|page: int|
            start <= page < start + nr ==> (#[trigger] extent_map::known(entry.runs(), page))
                is Some && (create ==> extent_map::known(entry.runs(), page) != Some(None::<int>)),
        plan matches BlockPlan::PastEof { cached, .. } ==> extent_map::known(
            entry.runs(),
            start + cached,
        ) is None,
        plan matches BlockPlan::Walk(w) ==> {
            let first = extent_map::known(entry.runs(), w.walk.page as int);
            &&& first is None || create && first == Some(None::<int>)
            &&& forall|page: int|
                start <= page < w.walk.page ==> (#[trigger] extent_map::known(entry.runs(), page))
                    is Some
        },
        plan matches BlockPlan::PastEof { cached, pages, warm } ==> {
            &&& !create
            &&& cached + pages == nr
            &&& pages > 64
            &&& len matches Some(Some(bytes)) && (start + cached) * 4096 >= bytes + 32768
            &&& warm <==> entry.runs().len() > 0
        },
        plan matches BlockPlan::Walk(w) ==> {
            &&& w.walk.page == start + w.cached
            &&& start <= w.walk.page < w.walk.end == start + nr
            &&& w.walk.learn_end == start + nr
            &&& w.walk.create == create
            &&& w.walk.external == external
            &&& w.walk.in_chunk == 0
            &&& w.walk.lookups == 0
            &&& w.entry.slot() == slot
            &&& w.generation == entry.current()
            &&& w.warm <==> entry.runs().len() > 0
            &&& walk::learned_extents(w.learned).len() == 0
            &&& !create && start + nr - w.walk.page > 64 ==> (len matches Some(Some(bytes))
                ==> w.walk.page * 4096 < bytes + 32768)
        },
{
    extent_map::lemma_served_is_known(entry.runs(), start, nr, create);
}

/// An answer past the end of the file is right: not one byte of the file lies in a page that it is
/// given for.
pub proof fn lemma_past_eof_holds_no_byte(len: Option<Option<u64>>, page: int, pages: int, byte: int)
    requires
        past_eof(len, page, pages),
        page * 4096 <= byte < (page + pages) * 4096,
    ensures
        pages > 64,
        len matches Some(Some(bytes)) && byte >= bytes + 32768,
{
}

/// More than 64 pages that lie eight pages or more past a known end of the file are never walked.
pub proof fn lemma_far_past_eof_is_a_hole(bytes: u64, page: int, pages: int)
    requires
        pages > 64,
        page * 4096 >= bytes + 32768,
    ensures
        past_eof(Some(Some(bytes)), page, pages),
        !past_eof(None, page, pages),
        !past_eof(Some(None), page, pages),
{
}

/// An internal object is kept in a file whose name reads as its id in hexadecimal, in a directory
/// under `ids` whose name reads as the most significant byte of the id.
pub proof fn lemma_id_paths_read_back(id: ObjID)
    ensures
        id_dir(id).take(4) == seq!['i', 'd', 's', '/'],
        text::all_hex(id_dir(id).skip(4)),
        text::hex_value(id_dir(id).skip(4)) * 0x0100_0000_0000_0000_0000_0000_0000_0000 <= id,
        id < (text::hex_value(id_dir(id).skip(4)) + 1)
            * 0x0100_0000_0000_0000_0000_0000_0000_0000,
        id_file(id).take(id_dir(id).len() as int) == id_dir(id),
        id_file(id).len() > id_dir(id).len() + 1,
        id_file(id)[id_dir(id).len() as int] == '/',
        text::all_hex(id_file(id).skip(id_dir(id).len() + 1int)),
        text::hex_value(id_file(id).skip(id_dir(id).len() + 1int)) == id,
        id > 0 ==> id_file(id)[id_dir(id).len() + 1int] != '0',
{
    reveal_strlit("ids/");
    reveal_strlit("/");
    text::lemma_hex_value(top_byte(id));
    text::lemma_hex_value(id as nat);
    text::lemma_hex_is_plain(id as nat);
    assert(id_dir(id).take(4) =~= seq!['i', 'd', 's', '/']);
    assert(id_dir(id).skip(4) =~= text::hex(top_byte(id)));
    assert(id_file(id).take(id_dir(id).len() as int) =~= id_dir(id));
    assert(id_file(id).skip(id_dir(id).len() + 1int) =~= text::hex(id as nat));
    assert(id_file(id)[id_dir(id).len() + 1int] == text::hex(id as nat)[0]);
}

/// Forgetting an object forgets its inode number and its length, and nothing of any other object.
/// A removal starts by that, and a mutation does not.
pub proof fn lemma_forgetting_is_of_one_object(
    before: Ext4Store,
    after: Ext4Store,
    id: ObjID,
    other: ObjID,
    slot: u64,
)
    requires
        before.forgotten(after, id) || before.removal_begun(after, id, slot),
        other != id,
    ensures
        !after.inos().dom().contains(id),
        !after.lens().dom().contains(id),
        after.knows_nothing_of(id),
        after.inos().dom().contains(other) <==> before.inos().dom().contains(other),
        before.inos().dom().contains(other) ==> after.inos()[other] == before.inos()[other],
        after.lens().dom().contains(other) <==> before.lens().dom().contains(other),
        before.lens().dom().contains(other) ==> after.lens()[other] == before.lens()[other],
        before.forgotten(after, id) ==> after.tracker() == before.tracker(),
        before.removal_begun(after, id, slot) ==> tracker::entered(
            before.tracker(),
            after.tracker(),
            id,
            slot,
            true,
        ),
{
}

/// A mutation leaves inode numbers and lengths alone, and at its end, where the object's entry is
/// still there, nothing that was known of its extents is known any more.
pub proof fn lemma_mutation_is_of_the_extents(
    before: Ext4Store,
    begun: Ext4Store,
    ended: Ext4Store,
    id: ObjID,
    slot: u64,
)
    requires
        before.mutation_begun(begun, id, slot),
        begun.mutation_ended(ended, slot),
        begun.tracker().held()[slot].age() < u64::MAX,
    ensures
        begun.inos() == before.inos(),
        begun.lens() == before.lens(),
        ended.inos() == before.inos(),
        ended.lens() == before.lens(),
        begun.tracker().held().dom().contains(slot),
        ended.tracker().held().dom().contains(slot) ==> ended.tracker().held()[slot].runs().len()
            == 0,
{
    if ended.tracker().held().dom().contains(slot) {
        object::lemma_invalidated_is_unknown(
            begun.tracker().held()[slot],
            ended.tracker().held()[slot],
        );
    }
}

/// What only one cache may differ in agrees in the others.
pub proof fn lemma_caches_change_apart(a: Ext4Store, b: Ext4Store, id: ObjID)
    ensures
        a.same_but_lens(b) ==> a.inos() == b.inos() && a.tracker() == b.tracker(),
        a.same_but_inos(b) ==> a.lens() == b.lens() && a.tracker() == b.tracker(),
        a.same_but_extents(b) ==> a.lens() == b.lens() && a.inos() == b.inos(),
        a.lens().dom().contains(id) ==> a.cached_len(id) == Some(a.lens()[id]),
        !a.lens().dom().contains(id) ==> a.cached_len(id) is None,
{
}

/// A step of a walk keeps what the walk is for.
pub proof fn lemma_walk_keeps_its_request(a: DiskWalk, b: DiskWalk)
    requires
        a.same_request(b),
    ensures
        a.entry == b.entry,
        a.generation == b.generation,
        a.cached == b.cached,
        a.warm == b.warm,
{
}

/// A request is answered with the places of the file's own blocks: behind what stood in the output,
/// each page gets the place of the block below it in an external file, and of the block of its own
/// number in any other, whether the cache served it, or it lies past the end of the file, or the
/// block map was walked for it, and whether or not blocks were to be allocated.
pub proof fn lemma_disk_blocks_are_of_the_file(
    file: spec_fn(int) -> Option<int>,
    plan: BlockPlan,
    entry: object::ObjectExtents,
    slot: u64,
    len: Option<Option<u64>>,
    start: int,
    nr: int,
    create: bool,
    external: bool,
    before: Seq<DevicePage>,
    after: Seq<DevicePage>,
    done: BlockWalk,
    learned: Seq<(u64, Option<u64>, u32)>,
    out: Seq<DevicePage>,
    page: int,
)
    requires
        entry.wf(),
        object::faithful(entry.runs(), walk::page_blocks(file, external)),
        device_page::tail_fits(before, nr),
        0 < start,
        nr > 0,
        answers(plan, entry, slot, len, start, nr, create, external, before, after),
        plan matches BlockPlan::PastEof { cached, .. } ==> (forall|p: int|
            #![trigger walk::page_blocks(file, external)(p)]
            start + cached <= p < start + nr ==> walk::page_blocks(file, external)(p) is None),
        plan matches BlockPlan::Walk(w) ==> {
            &&& done.wf()
            &&& done.step() is Done
            &&& done.end == w.walk.end
            &&& done.create == w.walk.create
            &&& done.external == w.walk.external
            &&& walk::walked(
                walk::page_blocks(file, done.external),
                w.walk.page as int,
                done,
                learned,
                after,
                out,
            )
        },
        plan !is Walk ==> out == after,
        start <= page < start + nr,
    ensures
        device_page::backing(out).len() == device_page::backing(before).len() + nr,
        external ==> device_page::backing(out)[device_page::backing(before).len() + (page - start)]
            == file(page - 1),
        !external ==> device_page::backing(out)[device_page::backing(before).len() + (page - start)]
            == file(page),
{
    let truth = walk::page_blocks(file, external);
    lemma_served_tail(
        entry.runs(),
        before,
        start,
        nr,
        extent_map::served(entry.runs(), start, nr, create),
        create,
    );
    lemma_disk_blocks_are_true(
        truth,
        plan,
        entry,
        slot,
        len,
        start,
        nr,
        create,
        external,
        before,
        after,
        done,
        learned,
        out,
    );
    let blocks = walk::true_blocks(truth, start, start + nr);
    assert(blocks[page - start] == truth(start + (page - start)));
    assert(truth(page) == if external {
        file(page - 1)
    } else {
        file(page)
    });
}

} // verus!
