//! Accounting, and the lines that report it.
//!
//! Counters wrap around, as the atomic counters that they stand for do.

use vstd::prelude::*;

use crate::text;

verus! {

/// Which call site took the fs lock. Only granular enough to tell whether the hold-time tail comes
/// from the block-map walk or from the one-shot metadata operations.
#[derive(Clone, Copy, Debug, PartialEq, Eq, Structural)]
pub enum FsSite {
    /// Walking the block map.
    Walk,
    /// Paging out.
    PageOut,
    /// Reading or writing an object.
    ReadWrite,
    /// One-shot metadata operations.
    Meta,
    /// Opening an external file.
    External,
    /// Listing an external directory.
    ExtReaddir,
    /// Removing an external name.
    ExtUnlink,
    /// Renaming an external file.
    ExtRename,
}

/// How many call sites there are.
pub const FS_SITES: usize = 8;

impl FsSite {
    /// The number of the site.
    pub open spec fn number(self) -> int {
        match self {
            FsSite::Walk => 0,
            FsSite::PageOut => 1,
            FsSite::ReadWrite => 2,
            FsSite::Meta => 3,
            FsSite::External => 4,
            FsSite::ExtReaddir => 5,
            FsSite::ExtUnlink => 6,
            FsSite::ExtRename => 7,
        }
    }

    /// The number of the site.
    pub fn index(self) -> (i: usize)
        ensures
            i == self.number(),
            i < FS_SITES,
    {
        match self {
            FsSite::Walk => 0,
            FsSite::PageOut => 1,
            FsSite::ReadWrite => 2,
            FsSite::Meta => 3,
            FsSite::External => 4,
            FsSite::ExtReaddir => 5,
            FsSite::ExtUnlink => 6,
            FsSite::ExtRename => 7,
        }
    }
}

/// The name of a site, by its number.
pub open spec fn site_label(i: int) -> Seq<char> {
    if i == 0 {
        "walk"@
    } else if i == 1 {
        "page-out"@
    } else if i == 2 {
        "read/write"@
    } else if i == 3 {
        "meta"@
    } else if i == 4 {
        "ext-open"@
    } else if i == 5 {
        "ext-readdir"@
    } else if i == 6 {
        "ext-unlink"@
    } else {
        "ext-rename"@
    }
}

fn site_name(i: usize) -> (name: &'static str)
    requires
        i < FS_SITES,
    ensures
        name@ == site_label(i as int),
{
    match i {
        0 => "walk",
        1 => "page-out",
        2 => "read/write",
        3 => "meta",
        4 => "ext-open",
        5 => "ext-readdir",
        6 => "ext-unlink",
        _ => "ext-rename",
    }
}

/// Whether a number is a power of two.
pub open spec fn is_pow2(n: int) -> bool
    decreases n,
{
    if n <= 1 {
        n == 1
    } else {
        n % 2 == 0 && is_pow2(n / 2)
    }
}

/// Whether a number is a power of two.
pub fn power_of_two(n: u64) -> (yes: bool)
    ensures
        yes == is_pow2(n as int),
{
    let mut m: u64 = n;
    while m > 1
        invariant
            is_pow2(n as int) == is_pow2(m as int),
        decreases m,
    {
        if m % 2 != 0 {
            return false;
        }
        m = m / 2;
    }
    m == 1
}

/// The greater of two numbers.
pub open spec fn greatest(a: u64, b: u64) -> u64 {
    if a < b {
        b
    } else {
        a
    }
}

/// Raises a high-water mark to `v` if it is lower.
pub fn bump_max(cell: &mut u64, v: u64)
    ensures
        *final(cell) == greatest(*old(cell), v),
{
    if v > *cell {
        *cell = v;
    }
}

/// Whether the diagnostics of the class `pager` are asked for: the comma-separated list names that
/// class, or `all`.
pub open spec fn diag_asked(set: Seq<u8>) -> bool {
    exists|from: int, to: int| #[trigger]
        is_item(set, from, to) && (set.subrange(from, to) == pager_bytes() || set.subrange(from, to)
            == all_bytes())
}

/// Whether `set[from..to]` is an item of a comma-separated list.
pub open spec fn is_item(set: Seq<u8>, from: int, to: int) -> bool {
    &&& 0 <= from <= to <= set.len()
    &&& from == 0 || set[from - 1] == COMMA
    &&& to == set.len() || set[to] == COMMA
    &&& forall|i: int| from <= i < to ==> #[trigger] set[i] != COMMA
}

/// `pager`, in bytes.
pub open spec fn pager_bytes() -> Seq<u8> {
    seq![112u8, 97u8, 103u8, 101u8, 114u8]
}

/// `all`, in bytes.
pub open spec fn all_bytes() -> Seq<u8> {
    seq![97u8, 108u8, 108u8]
}

/// `,`, as a byte.
pub const COMMA: u8 = 44;

/// Whether `set[from..to]` is `pager` or `all`.
fn names_pager(set: &[u8], from: usize, to: usize) -> (yes: bool)
    requires
        from <= to <= set@.len(),
    ensures
        yes == (set@.subrange(from as int, to as int) == pager_bytes() || set@.subrange(
            from as int,
            to as int,
        ) == all_bytes()),
{
    let ghost item = set@.subrange(from as int, to as int);
    if to - from == 5 {
        let yes = set[from] == 112 && set[from + 1] == 97 && set[from + 2] == 103 && set[from + 3]
            == 101 && set[from + 4] == 114;
        proof {
            assert(item.len() != all_bytes().len());
            if yes {
                assert(item =~= pager_bytes());
            } else {
                assert(item[0] == set@[from as int]);
                assert(item[1] == set@[from + 1]);
                assert(item[2] == set@[from + 2]);
                assert(item[3] == set@[from + 3]);
                assert(item[4] == set@[from + 4]);
            }
        }
        yes
    } else if to - from == 3 {
        let yes = set[from] == 97 && set[from + 1] == 108 && set[from + 2] == 108;
        proof {
            assert(item.len() != pager_bytes().len());
            if yes {
                assert(item =~= all_bytes());
            } else {
                assert(item[0] == set@[from as int]);
                assert(item[1] == set@[from + 1]);
                assert(item[2] == set@[from + 2]);
            }
        }
        yes
    } else {
        assert(item.len() != pager_bytes().len());
        assert(item.len() != all_bytes().len());
        false
    }
}

/// Whether the diagnostics of the class `pager` are asked for: the comma-separated list `set` names
/// that class, or `all`.
pub fn diag_requested(set: &[u8]) -> (yes: bool)
    ensures
        yes == diag_asked(set@),
{
    let mut from: usize = 0;
    let mut to: usize = 0;
    loop
        invariant
            from <= to <= set.len(),
            from == 0 || set@[from - 1] == COMMA,
            forall|i: int| from <= i < to ==> #[trigger] set@[i] != COMMA,
            forall|a: int, b: int| #[trigger]
                is_item(set@, a, b) && a < from ==> set@.subrange(a, b) != pager_bytes()
                    && set@.subrange(a, b) != all_bytes(),
        decreases set.len() - to,
    {
        if to == set.len() || set[to] == COMMA {
            let found = names_pager(set, from, to);
            assert(is_item(set@, from as int, to as int));
            if found {
                return true;
            }
            proof {
                assert forall|a: int, b: int| #[trigger]
                    is_item(set@, a, b) && a <= to implies set@.subrange(a, b) != pager_bytes()
                    && set@.subrange(a, b) != all_bytes() by {
                    if a >= from {
                        if a > from {
                            assert(set@[a - 1] == COMMA);
                        }
                        assert(a == from);
                        if b < to {
                            assert(set@[b] == COMMA);
                        }
                        if b > to {
                            assert(set@[to as int] != COMMA);
                        }
                    }
                }
            }
            if to == set.len() {
                return false;
            }
            from = to + 1;
        }
        to = to + 1;
    }
}

/// Contention and hold-time accounting for the one global fs lock.
#[derive(Debug)]
pub struct FsLockStats {
    /// Opens by a cached inode number.
    pub ino_hits: u64,
    /// Opens that took a full path lookup.
    pub ino_misses: u64,
    /// Block-device reads issued while each site held the lock.
    pub site_reads: [u64; 8],
    /// How often each site held the lock.
    pub site_holds: [u64; 8],
    /// How long each site held the lock.
    pub site_hold_ns: [u64; 8],
    /// The longest that each site held the lock.
    pub site_max_ns: [u64; 8],
    /// How many hold the lock, or are about to let it go.
    pub held: usize,
    /// How often the lock was taken.
    pub acquires: u64,
    /// How often it was found held.
    pub contended: u64,
    /// How long it was held.
    pub hold_ns: u64,
    /// The longest that it was held.
    pub hold_max_ns: u64,
    /// How long was waited for it.
    pub wait_ns: u64,
    /// The longest that was waited for it.
    pub wait_max_ns: u64,
}

impl FsLockStats {
    /// Whether the counters by site, and those of inode lookups, are the same.
    pub open spec fn same_sites(self, other: FsLockStats) -> bool {
        &&& self.site_reads@ == other.site_reads@
        &&& self.site_holds@ == other.site_holds@
        &&& self.site_hold_ns@ == other.site_hold_ns@
        &&& self.site_max_ns@ == other.site_max_ns@
        &&& self.ino_hits == other.ino_hits
        &&& self.ino_misses == other.ino_misses
    }

    /// Whether the counters of the lock itself are the same.
    pub open spec fn same_lock(self, other: FsLockStats) -> bool {
        &&& self.held == other.held
        &&& self.acquires == other.acquires
        &&& self.contended == other.contended
        &&& self.hold_ns == other.hold_ns
        &&& self.hold_max_ns == other.hold_max_ns
        &&& self.wait_ns == other.wait_ns
        &&& self.wait_max_ns == other.wait_max_ns
    }

    /// Nothing counted yet.
    pub fn new() -> (stats: FsLockStats)
        ensures
            stats.held == 0,
            stats.acquires == 0,
            stats.contended == 0,
            stats.hold_ns == 0,
            stats.hold_max_ns == 0,
            stats.wait_ns == 0,
            stats.wait_max_ns == 0,
            stats.ino_hits == 0,
            stats.ino_misses == 0,
            stats.site_reads@ == Seq::new(8, |i: int| 0u64),
            stats.site_holds@ == Seq::new(8, |i: int| 0u64),
            stats.site_hold_ns@ == Seq::new(8, |i: int| 0u64),
            stats.site_max_ns@ == Seq::new(8, |i: int| 0u64),
    {
        let none: [u64; 8] = [0, 0, 0, 0, 0, 0, 0, 0];
        assert(none@ =~= Seq::new(8, |i: int| 0u64));
        FsLockStats {
            ino_hits: 0,
            ino_misses: 0,
            site_reads: none,
            site_holds: none,
            site_hold_ns: none,
            site_max_ns: none,
            held: 0,
            acquires: 0,
            contended: 0,
            hold_ns: 0,
            hold_max_ns: 0,
            wait_ns: 0,
            wait_max_ns: 0,
        }
    }

    /// Whether anyone holds the fs lock right now. Advisory by nature -- it can change the
    /// instant after it is read -- which is fine for an admission hint and would not be for a
    /// correctness decision.
    pub fn is_held(&self) -> (held: bool)
        ensures
            held == (self.held > 0),
    {
        self.held > 0
    }

    /// Counts that the lock was taken after waiting `waited` nanoseconds, and whether it had been
    /// found held. Returns whether a report is due: at each power of two, and every 2048 past 256.
    pub fn acquire(&mut self, contended: bool, waited: u64) -> (due: bool)
        ensures
            final(self).acquires == old(self).acquires.wrapping_add(1),
            final(self).contended == if contended {
                old(self).contended.wrapping_add(1)
            } else {
                old(self).contended
            },
            final(self).wait_ns == old(self).wait_ns.wrapping_add(waited),
            final(self).wait_max_ns == greatest(old(self).wait_max_ns, waited),
            final(self).held == old(self).held.wrapping_add(1),
            final(self).hold_ns == old(self).hold_ns,
            final(self).hold_max_ns == old(self).hold_max_ns,
            final(self).same_sites(*old(self)),
            due == (is_pow2(final(self).acquires as int) || (final(self).acquires > 256
                && final(self).acquires % 2048 == 0)),
    {
        self.acquires = self.acquires.wrapping_add(1);
        if contended {
            self.contended = self.contended.wrapping_add(1);
        }
        self.wait_ns = self.wait_ns.wrapping_add(waited);
        bump_max(&mut self.wait_max_ns, waited);
        self.held = self.held.wrapping_add(1);
        let n: u64 = self.acquires;
        power_of_two(n) || (n > 256 && n % 2048 == 0)
    }

    /// Counts that `site` let go of the lock after holding it for `held` nanoseconds.
    pub fn release(&mut self, site: FsSite, held: u64)
        ensures
            final(self).hold_ns == old(self).hold_ns.wrapping_add(held),
            final(self).hold_max_ns == greatest(old(self).hold_max_ns, held),
            final(self).site_holds@ == old(self).site_holds@.update(
                site.number(),
                old(self).site_holds@[site.number()].wrapping_add(1),
            ),
            final(self).site_hold_ns@ == old(self).site_hold_ns@.update(
                site.number(),
                old(self).site_hold_ns@[site.number()].wrapping_add(held),
            ),
            final(self).site_max_ns@ == old(self).site_max_ns@.update(
                site.number(),
                greatest(old(self).site_max_ns@[site.number()], held),
            ),
            final(self).held == old(self).held.wrapping_sub(1),
            final(self).site_reads@ == old(self).site_reads@,
            final(self).ino_hits == old(self).ino_hits,
            final(self).ino_misses == old(self).ino_misses,
            final(self).acquires == old(self).acquires,
            final(self).contended == old(self).contended,
            final(self).wait_ns == old(self).wait_ns,
            final(self).wait_max_ns == old(self).wait_max_ns,
    {
        let i: usize = site.index();
        self.hold_ns = self.hold_ns.wrapping_add(held);
        bump_max(&mut self.hold_max_ns, held);
        let holds: u64 = self.site_holds[i].wrapping_add(1);
        self.site_holds[i] = holds;
        let hold_ns: u64 = self.site_hold_ns[i].wrapping_add(held);
        self.site_hold_ns[i] = hold_ns;
        let mut max: u64 = self.site_max_ns[i];
        bump_max(&mut max, held);
        self.site_max_ns[i] = max;
        self.held = self.held.wrapping_sub(1);
    }

    /// Counts a block-device read for the site whose critical section it was made in, if any.
    pub fn note_bd_read(&mut self, site: Option<FsSite>)
        ensures
            final(self).site_reads@ == (match site {
                Some(s) => old(self).site_reads@.update(
                    s.number(),
                    old(self).site_reads@[s.number()].wrapping_add(1),
                ),
                None => old(self).site_reads@,
            }),
            final(self).site_holds@ == old(self).site_holds@,
            final(self).site_hold_ns@ == old(self).site_hold_ns@,
            final(self).site_max_ns@ == old(self).site_max_ns@,
            final(self).ino_hits == old(self).ino_hits,
            final(self).ino_misses == old(self).ino_misses,
            final(self).same_lock(*old(self)),
    {
        if let Some(site) = site {
            let i: usize = site.index();
            let reads: u64 = self.site_reads[i].wrapping_add(1);
            self.site_reads[i] = reads;
        }
    }

    /// Counts an open by inode number, or one by path.
    pub fn note_ino_lookup(&mut self, hit: bool)
        ensures
            final(self).ino_hits == if hit {
                old(self).ino_hits.wrapping_add(1)
            } else {
                old(self).ino_hits
            },
            final(self).ino_misses == if hit {
                old(self).ino_misses
            } else {
                old(self).ino_misses.wrapping_add(1)
            },
            final(self).site_reads@ == old(self).site_reads@,
            final(self).site_holds@ == old(self).site_holds@,
            final(self).site_hold_ns@ == old(self).site_hold_ns@,
            final(self).site_max_ns@ == old(self).site_max_ns@,
            final(self).same_lock(*old(self)),
    {
        if hit {
            self.ino_hits = self.ino_hits.wrapping_add(1);
        } else {
            self.ino_misses = self.ino_misses.wrapping_add(1);
        }
    }

    /// The line on the lock.
    pub open spec fn lock_line(self) -> Seq<char> {
        let n: int = if self.acquires == 0 {
            1
        } else {
            self.acquires as int
        };
        "FSLOCK: "@ + text::dec(self.acquires as nat) + " acquires, "@ + text::dec(
            self.contended as nat,
        ) + " found it held ("@ + text::dec((100 * self.contended / n) as nat)
            + "%); hold mean "@ + text::dec((self.hold_ns as int / n / 1000) as nat) + " us max "@
            + text::dec((self.hold_max_ns / 1000) as nat) + " us; wait mean "@ + text::dec(
            (self.wait_ns as int / n / 1000) as nat,
        ) + " us max "@ + text::dec((self.wait_max_ns / 1000) as nat) + " us"@
    }

    /// The part of the line on the sites that is about site `i`: nothing for a site that never
    /// held the lock.
    pub open spec fn site_part(self, i: int) -> Seq<char> {
        if self.site_holds@[i] == 0 {
            Seq::empty()
        } else {
            " "@ + site_label(i) + " n="@ + text::dec(self.site_holds@[i] as nat) + " mean="@
                + text::dec(
                (self.site_hold_ns@[i] as int / self.site_holds@[i] as int / 1000) as nat,
            ) + "us max="@ + text::dec((self.site_max_ns@[i] / 1000) as nat) + "us bd-reads="@
                + text::dec(self.site_reads@[i] as nat) + ";"@
        }
    }

    /// The part of the line on the sites that is about the first `n` of them.
    pub open spec fn site_parts(self, n: int) -> Seq<char>
        decreases n,
    {
        if n <= 0 {
            Seq::empty()
        } else {
            self.site_parts(n - 1) + self.site_part(n - 1)
        }
    }

    /// The line on the sites.
    pub open spec fn sites_line(self) -> Seq<char> {
        let (h, m) = (self.ino_hits as int, self.ino_misses as int);
        let all = if h + m == 0 {
            1
        } else {
            h + m
        };
        "FSLOCK-SITES:"@ + self.site_parts(FS_SITES as int) + " ino-cache "@ + text::dec(h as nat)
            + " hit / "@ + text::dec(m as nat) + " miss ("@ + text::dec((100 * m / all) as nat)
            + "% miss)"@
    }

    fn append_site(&self, out: &mut String, i: usize)
        requires
            i < FS_SITES,
        ensures
            final(out)@ == old(out)@ + self.site_part(i as int),
    {
        let n: u64 = self.site_holds[i];
        if n == 0 {
            assert(out@ + self.site_part(i as int) =~= out@);
            return ;
        }
        let mut part = String::new();
        part.append(" ");
        part.append(site_name(i));
        part.append(" n=");
        text::append_dec(&mut part, n);
        part.append(" mean=");
        text::append_dec(&mut part, self.site_hold_ns[i] / n / 1000);
        part.append("us max=");
        text::append_dec(&mut part, self.site_max_ns[i] / 1000);
        part.append("us bd-reads=");
        text::append_dec(&mut part, self.site_reads[i]);
        part.append(";");
        assert(part@ =~= self.site_part(i as int));
        out.append(part.as_str());
    }

    /// The two lines that report the counters.
    pub fn report(&self) -> (lines: (String, String))
        requires
            100 * self.contended <= u64::MAX,
            100 * self.ino_misses <= u64::MAX,
            self.ino_hits + self.ino_misses <= u64::MAX,
        ensures
            lines.0@ == self.lock_line(),
            lines.1@ == self.sites_line(),
    {
        let n: u64 = if self.acquires == 0 {
            1
        } else {
            self.acquires
        };
        let mut lock = String::new();
        lock.append("FSLOCK: ");
        text::append_dec(&mut lock, self.acquires);
        lock.append(" acquires, ");
        text::append_dec(&mut lock, self.contended);
        lock.append(" found it held (");
        text::append_dec(&mut lock, 100 * self.contended / n);
        lock.append("%); hold mean ");
        text::append_dec(&mut lock, self.hold_ns / n / 1000);
        lock.append(" us max ");
        text::append_dec(&mut lock, self.hold_max_ns / 1000);
        lock.append(" us; wait mean ");
        text::append_dec(&mut lock, self.wait_ns / n / 1000);
        lock.append(" us max ");
        text::append_dec(&mut lock, self.wait_max_ns / 1000);
        lock.append(" us");
        assert(lock@ =~= self.lock_line());

        let mut sites = String::new();
        sites.append("FSLOCK-SITES:");
        let mut per_site = String::new();
        let mut i: usize = 0;
        while i < FS_SITES
            invariant
                i <= FS_SITES,
                per_site@ == self.site_parts(i as int),
            decreases FS_SITES - i,
        {
            self.append_site(&mut per_site, i);
            i = i + 1;
        }
        sites.append(per_site.as_str());
        let (h, m) = (self.ino_hits, self.ino_misses);
        let all: u64 = if h + m == 0 {
            1
        } else {
            h + m
        };
        sites.append(" ino-cache ");
        text::append_dec(&mut sites, h);
        sites.append(" hit / ");
        text::append_dec(&mut sites, m);
        sites.append(" miss (");
        text::append_dec(&mut sites, 100 * m / all);
        sites.append("% miss)");
        assert(sites@ =~= self.sites_line());
        (lock, sites)
    }
}

/// Letting go of the lock undoes taking it: with as many releases as acquisitions, nobody holds it.
pub proof fn lemma_release_balances_acquire(held: usize)
    ensures
        held.wrapping_add(1).wrapping_sub(1) == held,
{
}

/// Each site has a number and a name of its own.
pub proof fn lemma_sites_have_names()
    ensures
        site_label(FsSite::Walk.number()) == "walk"@,
        site_label(FsSite::PageOut.number()) == "page-out"@,
        site_label(FsSite::ReadWrite.number()) == "read/write"@,
        site_label(FsSite::Meta.number()) == "meta"@,
        site_label(FsSite::External.number()) == "ext-open"@,
        site_label(FsSite::ExtReaddir.number()) == "ext-readdir"@,
        site_label(FsSite::ExtUnlink.number()) == "ext-unlink"@,
        site_label(FsSite::ExtRename.number()) == "ext-rename"@,
        forall|a: FsSite, b: FsSite| #[trigger] a.number() == #[trigger] b.number() ==> a == b,
        forall|a: FsSite| 0 <= #[trigger] a.number() < 8,
        FS_SITES == 8,
{
}

/// A power of two is two to the power of something.
pub proof fn lemma_is_pow2(n: int)
    ensures
        is_pow2(n) <==> exists|k: nat| n == #[trigger] vstd::arithmetic::power2::pow2(k),
    decreases n,
{
    vstd::arithmetic::power2::lemma2_to64();
    if n <= 1 {
        if n == 1 {
            assert(n == vstd::arithmetic::power2::pow2(0));
        }
        assert forall|k: nat| n == #[trigger] vstd::arithmetic::power2::pow2(k) implies n == 1 by {
            vstd::arithmetic::power2::lemma_pow2_pos(k);
        }
    } else {
        lemma_is_pow2(n / 2);
        if is_pow2(n) {
            let k = choose|k: nat| n / 2 == #[trigger] vstd::arithmetic::power2::pow2(k);
            vstd::arithmetic::power2::lemma_pow2_unfold(k + 1);
            assert(n == vstd::arithmetic::power2::pow2(k + 1));
        }
        assert forall|k: nat| n == #[trigger] vstd::arithmetic::power2::pow2(k) implies is_pow2(
            n,
        ) by {
            if k > 0 {
                vstd::arithmetic::power2::lemma_pow2_unfold(k);
                assert(n / 2 == vstd::arithmetic::power2::pow2((k - 1) as nat));
            }
        }
    }
}

/// The greater of two numbers is one of them, and no less than either.
pub proof fn lemma_greatest(a: u64, b: u64)
    ensures
        greatest(a, b) >= a,
        greatest(a, b) >= b,
        greatest(a, b) == a || greatest(a, b) == b,
{
}

/// A list of two parts with a comma between them asks for the diagnostics where either part does,
/// and a part without a comma where it reads `pager` or `all`.
pub proof fn lemma_diag_by_items(a: Seq<u8>, b: Seq<u8>, item: Seq<u8>)
    requires
        forall|i: int| 0 <= i < item.len() ==> #[trigger] item[i] != 44,
    ensures
        diag_asked(a + seq![44u8] + b) <==> diag_asked(a) || diag_asked(b),
        diag_asked(item) <==> item == seq![112u8, 97u8, 103u8, 101u8, 114u8] || item == seq![
            97u8,
            108u8,
            108u8,
        ],
{
    let list = a + seq![44u8] + b;
    let mid = a.len() as int;
    assert(list[mid] == 44);
    assert forall|from: int, to: int| #[trigger] is_item(a, from, to) implies is_item(
        list,
        from,
        to,
    ) && list.subrange(from, to) == a.subrange(from, to) by {
        assert forall|i: int| from <= i < to implies #[trigger] list[i] != COMMA by {
            assert(a[i] != COMMA);
        }
        assert(list.subrange(from, to) =~= a.subrange(from, to));
    }
    assert forall|from: int, to: int| #[trigger] is_item(b, from, to) implies is_item(
        list,
        from + mid + 1,
        to + mid + 1,
    ) && list.subrange(from + mid + 1, to + mid + 1) == b.subrange(from, to) by {
        assert forall|i: int| from + mid + 1 <= i < to + mid + 1 implies #[trigger] list[i]
            != COMMA by {
            assert(b[i - mid - 1] != COMMA);
        }
        assert(list.subrange(from + mid + 1, to + mid + 1) =~= b.subrange(from, to));
    }
    assert forall|from: int, to: int| #[trigger] is_item(list, from, to) implies to <= mid && is_item(
        a,
        from,
        to,
    ) && list.subrange(from, to) == a.subrange(from, to) || from > mid && is_item(
        b,
        from - mid - 1,
        to - mid - 1,
    ) && list.subrange(from, to) == b.subrange(from - mid - 1, to - mid - 1) by {
        if from <= mid {
            assert(to <= mid) by {
                if to > mid {
                    assert(list[mid] != COMMA);
                }
            }
            assert forall|i: int| from <= i < to implies #[trigger] a[i] != COMMA by {
                assert(list[i] != COMMA);
            }
            assert(list.subrange(from, to) =~= a.subrange(from, to));
        } else {
            assert forall|i: int| from - mid - 1 <= i < to - mid - 1 implies #[trigger] b[i]
                != COMMA by {
                assert(list[i + mid + 1] != COMMA);
            }
            assert(list.subrange(from, to) =~= b.subrange(from - mid - 1, to - mid - 1));
        }
    }
    assert(is_item(item, 0, item.len() as int));
    assert(item.subrange(0, item.len() as int) =~= item);
    assert forall|from: int, to: int| #[trigger] is_item(item, from, to) implies from == 0 && to
        == item.len() by {
        if from > 0 {
            assert(item[from - 1] != 44);
        }
        if to < item.len() {
            assert(item[to] != 44);
        }
    }
}

proof fn lemma_quotient(x: int, d: int, q: int)
    requires
        d > 0,
        q * d <= x < (q + 1) * d,
    ensures
        x / d == q,
{
    assert(x == q * d + (x - q * d));
    assert(0 <= x - q * d < d) by (nonlinear_arith)
        requires
            q * d <= x < (q + 1) * d,
    ;
    vstd::arithmetic::div_mod::lemma_fundamental_div_mod_converse(x, d, q, x - q * d);
}

/// Whether `mean` is how many microseconds each of `n` parts of `ns` nanoseconds takes, rounded
/// down.
pub open spec fn mean_us(ns: int, n: int, mean: nat) -> bool {
    mean * (n * 1000) <= ns < (mean + 1) * (n * 1000)
}

proof fn lemma_mean(ns: int, n: int, mean: nat)
    requires
        ns >= 0,
        n > 0,
        mean_us(ns, n, mean),
    ensures
        ns / n / 1000 == mean,
{
    assert(n * 1000 > 0) by (nonlinear_arith)
        requires
            n > 0,
    ;
    lemma_quotient(ns, n * 1000, mean as int);
    vstd::arithmetic::div_mod::lemma_div_denominator(ns, n, 1000);
}

/// The line on the lock says how often it was taken and found held, what part of the times that is
/// in whole percent, and in whole microseconds how long it was held and waited for, on average and
/// at most. A lock that was never taken counts as taken once.
pub proof fn lemma_lock_line_says(
    stats: FsLockStats,
    percent: nat,
    hold: nat,
    hold_max: nat,
    wait: nat,
    wait_max: nat,
)
    requires
        ({
            let n = if stats.acquires == 0 {
                1
            } else {
                stats.acquires as int
            };
            &&& percent * n <= 100 * stats.contended < (percent + 1) * n
            &&& mean_us(stats.hold_ns as int, n, hold)
            &&& mean_us(stats.wait_ns as int, n, wait)
            &&& hold_max * 1000 <= stats.hold_max_ns < (hold_max + 1) * 1000
            &&& wait_max * 1000 <= stats.wait_max_ns < (wait_max + 1) * 1000
        }),
    ensures
        stats.lock_line() == "FSLOCK: "@ + text::dec(stats.acquires as nat) + " acquires, "@
            + text::dec(stats.contended as nat) + " found it held ("@ + text::dec(percent)
            + "%); hold mean "@ + text::dec(hold) + " us max "@ + text::dec(hold_max)
            + " us; wait mean "@ + text::dec(wait) + " us max "@ + text::dec(wait_max) + " us"@,
{
    let n = if stats.acquires == 0 {
        1
    } else {
        stats.acquires as int
    };
    lemma_quotient(100 * stats.contended, n, percent as int);
    lemma_mean(stats.hold_ns as int, n, hold);
    lemma_mean(stats.wait_ns as int, n, wait);
}

/// The line on the sites says of each site that held the lock how often, how long on average and at
/// most, and with how many reads, in the order of the sites; and it says nothing of the others.
pub proof fn lemma_site_part_says(stats: FsLockStats, i: int, mean: nat, max: nat)
    requires
        0 <= i < 8,
        stats.site_holds@[i] > 0 ==> mean_us(
            stats.site_hold_ns@[i] as int,
            stats.site_holds@[i] as int,
            mean,
        ) && max * 1000 <= stats.site_max_ns@[i] < (max + 1) * 1000,
    ensures
        stats.site_holds@[i] == 0 ==> stats.site_part(i).len() == 0,
        stats.site_holds@[i] > 0 ==> stats.site_part(i) == " "@ + site_label(i) + " n="@
            + text::dec(stats.site_holds@[i] as nat) + " mean="@ + text::dec(mean) + "us max="@
            + text::dec(max) + "us bd-reads="@ + text::dec(stats.site_reads@[i] as nat) + ";"@,
        stats.site_parts(0).len() == 0,
        stats.site_parts(i + 1) == stats.site_parts(i) + stats.site_part(i),
{
    if stats.site_holds@[i] > 0 {
        lemma_mean(stats.site_hold_ns@[i] as int, stats.site_holds@[i] as int, mean);
    }
}

/// The line on the sites ends in how many opens went by inode number and how many did not, and what
/// part of them that is in whole percent. With no opens at all that part is none.
pub proof fn lemma_sites_line_says(stats: FsLockStats, percent: nat)
    requires
        ({
            let all = stats.ino_hits + stats.ino_misses;
            &&& all > 0 ==> percent * all <= 100 * stats.ino_misses < (percent + 1) * all
            &&& all == 0 ==> percent == 0
        }),
    ensures
        stats.sites_line() == "FSLOCK-SITES:"@ + stats.site_parts(8) + " ino-cache "@ + text::dec(
            stats.ino_hits as nat,
        ) + " hit / "@ + text::dec(stats.ino_misses as nat) + " miss ("@ + text::dec(percent)
            + "% miss)"@,
{
    let all = stats.ino_hits + stats.ino_misses;
    if all > 0 {
        lemma_quotient(100 * stats.ino_misses, all, percent as int);
    }
}

/// What counts one thing leaves the other counters alone.
pub proof fn lemma_counters_change_apart(a: FsLockStats, b: FsLockStats)
    ensures
        a.same_sites(b) ==> a.site_reads@ == b.site_reads@ && a.site_holds@ == b.site_holds@
            && a.site_hold_ns@ == b.site_hold_ns@ && a.site_max_ns@ == b.site_max_ns@ && a.ino_hits
            == b.ino_hits && a.ino_misses == b.ino_misses,
        a.same_lock(b) ==> a.held == b.held && a.acquires == b.acquires && a.contended
            == b.contended && a.hold_ns == b.hold_ns && a.hold_max_ns == b.hold_max_ns && a.wait_ns
            == b.wait_ns && a.wait_max_ns == b.wait_max_ns,
{
}

} // verus!
