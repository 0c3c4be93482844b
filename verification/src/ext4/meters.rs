//! Meters of paging, of the extent tracker and of the block device.
//!
//! Counters wrap around, as the atomic counters that they stand for do.

use vstd::prelude::*;

use crate::ext4::stats;
use crate::text;
use crate::PAGE_SIZE;

verus! {

/// Cumulative split of paging time between walking the ext4 block map (under the fs lock) and
/// the actual device transfer, so the cost of block-map lookup is visible without per-call
/// tracing.
#[derive(Debug)]
pub struct PageStats {
    /// Nanoseconds spent on the block map.
    pub collect_ns: u64,
    /// Nanoseconds spent on the transfer.
    pub io_ns: u64,
    /// How often paging was recorded.
    pub calls: u64,
}

impl PageStats {
    /// Nothing recorded yet.
    pub fn new() -> (stats: Self)
        ensures
            stats == (PageStats { collect_ns: 0, io_ns: 0, calls: 0 }),
    {
        PageStats { collect_ns: 0, io_ns: 0, calls: 0 }
    }

    /// The line that reports the meter.
    pub open spec fn line(self, what: Seq<char>) -> Seq<char> {
        "PAGESTATS "@ + what + ": "@ + text::dec(self.calls as nat) + " calls, collect "@
            + text::dec((self.collect_ns / 1_000_000) as nat) + "ms, io "@ + text::dec(
            (self.io_ns / 1_000_000) as nat,
        ) + "ms"@
    }

    /// Records one call. At each power of two the line that reports the meter is due, which always
    /// reports regardless of total call count, while staying sparse under load.
    pub fn record(&mut self, what: &str, collect: u64, io: u64) -> (line: Option<String>)
        requires
            old(self).calls < u64::MAX,
        ensures
            *final(self) == (PageStats {
                collect_ns: old(self).collect_ns.wrapping_add(collect),
                io_ns: old(self).io_ns.wrapping_add(io),
                calls: (old(self).calls + 1) as u64,
            }),
            line is Some <==> stats::is_pow2(final(self).calls as int),
            line matches Some(text) ==> text@ == final(self).line(what@),
    {
        self.collect_ns = self.collect_ns.wrapping_add(collect);
        self.io_ns = self.io_ns.wrapping_add(io);
        self.calls = self.calls + 1;
        if !stats::power_of_two(self.calls) {
            return None;
        }
        let mut out = String::new();
        out.append("PAGESTATS ");
        out.append(what);
        out.append(": ");
        text::append_dec(&mut out, self.calls);
        out.append(" calls, collect ");
        text::append_dec(&mut out, self.collect_ns / 1_000_000);
        out.append("ms, io ");
        text::append_dec(&mut out, self.io_ns / 1_000_000);
        out.append("ms");
        assert(out@ =~= self.line(what@));
        Some(out)
    }
}

/// A gauge, and the highest that it has been.
#[derive(Clone, Copy, Debug, PartialEq, Eq, Structural)]
pub struct Gauge {
    /// How many there are now.
    pub now: u64,
    /// The most that there have been.
    pub max: u64,
}

impl Gauge {
    /// Bump the gauge and keep its high-water mark.
    pub fn enter(&mut self) -> (now: u64)
        requires
            old(self).now < u64::MAX,
        ensures
            now == old(self).now + 1,
            *final(self) == (Gauge { now, max: stats::greatest(old(self).max, now) }),
    {
        self.now = self.now + 1;
        stats::bump_max(&mut self.max, self.now);
        self.now
    }

    /// Lower the gauge.
    pub fn leave(&mut self)
        ensures
            *final(self) == (Gauge { now: old(self).now.wrapping_sub(1), max: old(self).max }),
    {
        self.now = self.now.wrapping_sub(1);
    }
}

/// Whether the extent tracker is actually keeping the block-map walk off the fs lock. Split by
/// `create`, because page-out serving from cache is the case the tracker exists for.
#[derive(Debug)]
pub struct ExtentStats {
    /// Pages read from the cache.
    pub hit_pages: u64,
    /// Pages read that had to be walked for.
    pub walk_pages: u64,
    /// Pages answered by the past-EOF shortcut. Counted apart from `walk_pages` because they take
    /// no fs lock *and* are deliberately never cached.
    pub eof_pages: u64,
    /// Pages allocated that the cache had.
    pub create_hit_pages: u64,
    /// Pages allocated that had to be walked for.
    pub create_walk_pages: u64,
    /// Block-map lookups.
    pub walk_lookups: u64,
    /// Walks of the block map.
    pub walk_calls: u64,
    /// Listings of directories.
    pub rd_calls: u64,
    /// Directory entries that listings went over.
    pub rd_iterated: u64,
    /// Directory entries that listings handed back.
    pub rd_returned: u64,
    /// Directory entries that listings were asked to skip.
    pub rd_skip: u64,
    /// Pages walked *past* the request purely to populate the cache.
    pub ahead_pages: u64,
    /// Walks that were made to go past the request.
    pub ahead_calls: u64,
    /// Requests for the blocks behind pages.
    pub calls: u64,
    /// Requests that found the object already carrying valid extents.
    pub warm_object_calls: u64,
    /// Requests under way.
    pub inflight: Gauge,
    /// Requests under way that are served wholly from cache.
    pub cached_inflight: Gauge,
}

impl ExtentStats {
    /// Nothing counted yet.
    pub fn new() -> (stats: Self)
        ensures
            stats == ExtentStats::zero(),
    {
        ExtentStats {
            hit_pages: 0,
            walk_pages: 0,
            eof_pages: 0,
            create_hit_pages: 0,
            create_walk_pages: 0,
            walk_lookups: 0,
            walk_calls: 0,
            rd_calls: 0,
            rd_iterated: 0,
            rd_returned: 0,
            rd_skip: 0,
            ahead_pages: 0,
            ahead_calls: 0,
            calls: 0,
            warm_object_calls: 0,
            inflight: Gauge { now: 0, max: 0 },
            cached_inflight: Gauge { now: 0, max: 0 },
        }
    }

    /// Nothing counted.
    pub open spec fn zero() -> ExtentStats {
        ExtentStats {
            hit_pages: 0,
            walk_pages: 0,
            eof_pages: 0,
            create_hit_pages: 0,
            create_walk_pages: 0,
            walk_lookups: 0,
            walk_calls: 0,
            rd_calls: 0,
            rd_iterated: 0,
            rd_returned: 0,
            rd_skip: 0,
            ahead_pages: 0,
            ahead_calls: 0,
            calls: 0,
            warm_object_calls: 0,
            inflight: Gauge { now: 0, max: 0 },
            cached_inflight: Gauge { now: 0, max: 0 },
        }
    }

    /// The meter once a request is recorded that was served `hit` pages from cache, walked for
    /// `walked`, and answered `past_eof` as past the end of the file.
    pub open spec fn recorded(
        self,
        create: bool,
        hit: u32,
        walked: u32,
        past_eof: u32,
        warm: bool,
    ) -> ExtentStats {
        ExtentStats {
            warm_object_calls: if warm {
                self.warm_object_calls.wrapping_add(1)
            } else {
                self.warm_object_calls
            },
            create_hit_pages: if create {
                self.create_hit_pages.wrapping_add(hit as u64)
            } else {
                self.create_hit_pages
            },
            create_walk_pages: if create {
                self.create_walk_pages.wrapping_add(walked as u64)
            } else {
                self.create_walk_pages
            },
            hit_pages: if create {
                self.hit_pages
            } else {
                self.hit_pages.wrapping_add(hit as u64)
            },
            walk_pages: if create {
                self.walk_pages
            } else {
                self.walk_pages.wrapping_add(walked as u64)
            },
            eof_pages: self.eof_pages.wrapping_add(past_eof as u64),
            calls: (self.calls + 1) as u64,
            ..self
        }
    }

    /// The first half of the line that reports the meter: requests and pages.
    pub open spec fn pages_part(self) -> Seq<char> {
        "EXTENTSTATS: "@ + text::dec(self.calls as nat) + " calls ("@ + text::dec(
            self.warm_object_calls as nat,
        ) + " warm-object), "@ + text::dec(self.walk_lookups as nat) + " lookups; read pages "@
            + text::dec(self.hit_pages as nat) + " hit / "@ + text::dec(self.walk_pages as nat)
            + " walked / "@ + text::dec(self.eof_pages as nat) + " past-eof / "@ + text::dec(
            self.ahead_pages as nat,
        ) + " walked-ahead in "@ + text::dec(self.ahead_calls as nat) + " calls; create pages "@
            + text::dec(self.create_hit_pages as nat) + " hit / "@ + text::dec(
            self.create_walk_pages as nat,
        ) + " walked; concurrency max "@
    }

    /// The second half of the line that reports the meter: concurrency, clears and listings.
    pub open spec fn calls_part(self, overflow_clears: u64) -> Seq<char> {
        text::dec(self.inflight.max as nat) + " in flight, max "@ + text::dec(
            self.cached_inflight.max as nat,
        ) + " fs-lock-free; map overflow-clears "@ + text::dec(overflow_clears as nat)
            + "; walk entered "@ + text::dec(self.walk_calls as nat) + "; readdir "@ + text::dec(
            self.rd_calls as nat,
        ) + " calls, "@ + text::dec(self.rd_iterated as nat) + " dirents iterated, "@ + text::dec(
            self.rd_returned as nat,
        ) + " returned, "@ + text::dec(self.rd_skip as nat) + " skipped"@
    }

    /// The line that reports the meter.
    pub open spec fn line(self, overflow_clears: u64) -> Seq<char> {
        self.pages_part() + self.calls_part(overflow_clears)
    }

    fn append_pages_part(&self, out: &mut String)
        ensures
            final(out)@ == old(out)@ + self.pages_part(),
    {
        let mut part = String::new();
        part.append("EXTENTSTATS: ");
        text::append_dec(&mut part, self.calls);
        part.append(" calls (");
        text::append_dec(&mut part, self.warm_object_calls);
        part.append(" warm-object), ");
        text::append_dec(&mut part, self.walk_lookups);
        part.append(" lookups; read pages ");
        text::append_dec(&mut part, self.hit_pages);
        part.append(" hit / ");
        text::append_dec(&mut part, self.walk_pages);
        part.append(" walked / ");
        text::append_dec(&mut part, self.eof_pages);
        part.append(" past-eof / ");
        text::append_dec(&mut part, self.ahead_pages);
        part.append(" walked-ahead in ");
        text::append_dec(&mut part, self.ahead_calls);
        part.append(" calls; create pages ");
        text::append_dec(&mut part, self.create_hit_pages);
        part.append(" hit / ");
        text::append_dec(&mut part, self.create_walk_pages);
        part.append(" walked; concurrency max ");
        assert(part@ =~= self.pages_part());
        out.append(part.as_str());
    }

    fn append_calls_part(&self, out: &mut String, overflow_clears: u64)
        ensures
            final(out)@ == old(out)@ + self.calls_part(overflow_clears),
    {
        let mut part = String::new();
        text::append_dec(&mut part, self.inflight.max);
        part.append(" in flight, max ");
        text::append_dec(&mut part, self.cached_inflight.max);
        part.append(" fs-lock-free; map overflow-clears ");
        text::append_dec(&mut part, overflow_clears);
        part.append("; walk entered ");
        text::append_dec(&mut part, self.walk_calls);
        part.append("; readdir ");
        text::append_dec(&mut part, self.rd_calls);
        part.append(" calls, ");
        text::append_dec(&mut part, self.rd_iterated);
        part.append(" dirents iterated, ");
        text::append_dec(&mut part, self.rd_returned);
        part.append(" returned, ");
        text::append_dec(&mut part, self.rd_skip);
        part.append(" skipped");
        assert(part@ =~= self.calls_part(overflow_clears));
        out.append(part.as_str());
    }

    /// Records a request that was served `hit` pages from cache, walked for `walked`, and answered
    /// `past_eof` as past the end of the file. At each power of two the line that reports the meter
    /// is due; `overflow_clears` is how often a map was too fragmented to track.
    pub fn record(
        &mut self,
        create: bool,
        hit: u32,
        walked: u32,
        past_eof: u32,
        warm: bool,
        overflow_clears: u64,
    ) -> (line: Option<String>)
        requires
            old(self).calls < u64::MAX,
        ensures
            *final(self) == old(self).recorded(create, hit, walked, past_eof, warm),
            line is Some <==> stats::is_pow2(final(self).calls as int),
            line matches Some(text) ==> text@ == final(self).line(overflow_clears),
    {
        if warm {
            self.warm_object_calls = self.warm_object_calls.wrapping_add(1);
        }
        if create {
            self.create_hit_pages = self.create_hit_pages.wrapping_add(hit as u64);
            self.create_walk_pages = self.create_walk_pages.wrapping_add(walked as u64);
        } else {
            self.hit_pages = self.hit_pages.wrapping_add(hit as u64);
            self.walk_pages = self.walk_pages.wrapping_add(walked as u64);
        }
        self.eof_pages = self.eof_pages.wrapping_add(past_eof as u64);
        self.calls = self.calls + 1;
        if !stats::power_of_two(self.calls) {
            return None;
        }
        let mut out = String::new();
        self.append_pages_part(&mut out);
        self.append_calls_part(&mut out, overflow_clears);
        assert(out@ =~= self.line(overflow_clears));
        Some(out)
    }

    /// Counts a request as under way.
    pub fn in_flight(&mut self) -> (now: u64)
        requires
            old(self).inflight.now < u64::MAX,
        ensures
            now == old(self).inflight.now + 1,
            *final(self) == (ExtentStats {
                inflight: Gauge { now, max: stats::greatest(old(self).inflight.max, now) },
                ..*old(self)
            }),
    {
        self.inflight.enter()
    }

    /// Counts a request as served wholly from cache.
    pub fn cache_served(&mut self) -> (now: u64)
        requires
            old(self).cached_inflight.now < u64::MAX,
        ensures
            now == old(self).cached_inflight.now + 1,
            *final(self) == (ExtentStats {
                cached_inflight: Gauge {
                    now,
                    max: stats::greatest(old(self).cached_inflight.max, now),
                },
                ..*old(self)
            }),
    {
        self.cached_inflight.enter()
    }

    /// Counts a walk of the block map, and whether it is made to go past the request.
    pub fn note_walk(&mut self, ahead: bool)
        ensures
            *final(self) == (ExtentStats {
                walk_calls: old(self).walk_calls.wrapping_add(1),
                ahead_calls: if ahead {
                    old(self).ahead_calls.wrapping_add(1)
                } else {
                    old(self).ahead_calls
                },
                ..*old(self)
            }),
    {
        if ahead {
            self.ahead_calls = self.ahead_calls.wrapping_add(1);
        }
        self.walk_calls = self.walk_calls.wrapping_add(1);
    }

    /// Counts what a walk of the block map took.
    pub fn note_walked(&mut self, lookups: u64, ahead_pages: u64)
        ensures
            *final(self) == (ExtentStats {
                walk_lookups: old(self).walk_lookups.wrapping_add(lookups),
                ahead_pages: old(self).ahead_pages.wrapping_add(ahead_pages),
                ..*old(self)
            }),
    {
        self.walk_lookups = self.walk_lookups.wrapping_add(lookups);
        self.ahead_pages = self.ahead_pages.wrapping_add(ahead_pages);
    }

    /// Counts a listing of a directory.
    pub fn note_readdir(&mut self, skip: u64, iterated: u64, returned: u64)
        ensures
            *final(self) == (ExtentStats {
                rd_calls: old(self).rd_calls.wrapping_add(1),
                rd_skip: old(self).rd_skip.wrapping_add(skip),
                rd_iterated: old(self).rd_iterated.wrapping_add(iterated),
                rd_returned: old(self).rd_returned.wrapping_add(returned),
                ..*old(self)
            }),
    {
        self.rd_calls = self.rd_calls.wrapping_add(1);
        self.rd_skip = self.rd_skip.wrapping_add(skip);
        self.rd_iterated = self.rd_iterated.wrapping_add(iterated);
        self.rd_returned = self.rd_returned.wrapping_add(returned);
    }
}

/// Block-device traffic, to size what a flush actually costs.
#[derive(Debug)]
pub struct BdStats {
    /// Reads.
    pub reads: u64,
    /// Writes.
    pub writes: u64,
    /// Bytes written.
    pub write_bytes: u64,
    /// Writes to the page that holds the superblock.
    pub sb_writes: u64,
    /// Flushes.
    pub flushes: u64,
    /// Nanoseconds spent flushing.
    pub flush_ns: u64,
    /// Reads made by flushes.
    pub flush_reads: u64,
    /// Writes made by flushes.
    pub flush_writes: u64,
}

impl BdStats {
    /// Nothing counted yet.
    pub fn new() -> (stats: Self)
        ensures
            stats == (BdStats {
                reads: 0,
                writes: 0,
                write_bytes: 0,
                sb_writes: 0,
                flushes: 0,
                flush_ns: 0,
                flush_reads: 0,
                flush_writes: 0,
            }),
    {
        BdStats {
            reads: 0,
            writes: 0,
            write_bytes: 0,
            sb_writes: 0,
            flushes: 0,
            flush_ns: 0,
            flush_reads: 0,
            flush_writes: 0,
        }
    }

    /// Counts a read.
    pub fn note_read(&mut self)
        ensures
            *final(self) == (BdStats { reads: old(self).reads.wrapping_add(1), ..*old(self) }),
    {
        self.reads = self.reads.wrapping_add(1);
    }

    /// Counts a write of `len` bytes at `start`. The superblock lives inside page 0.
    pub fn note_write(&mut self, start: u64, len: u64)
        ensures
            *final(self) == (BdStats {
                writes: old(self).writes.wrapping_add(1),
                write_bytes: old(self).write_bytes.wrapping_add(len),
                sb_writes: if start < PAGE_SIZE {
                    old(self).sb_writes.wrapping_add(1)
                } else {
                    old(self).sb_writes
                },
                ..*old(self)
            }),
    {
        self.writes = self.writes.wrapping_add(1);
        self.write_bytes = self.write_bytes.wrapping_add(len);
        if start < PAGE_SIZE as u64 {
            self.sb_writes = self.sb_writes.wrapping_add(1);
        }
    }

    /// Records a flush that took `ns` nanoseconds, and what it read and wrote. Returns how many
    /// flushes there were, where that is a power of two and a report is due.
    pub fn record_flush(&mut self, ns: u64, reads: u64, writes: u64) -> (due: Option<u64>)
        requires
            old(self).flushes < u64::MAX,
        ensures
            *final(self) == (BdStats {
                flush_ns: old(self).flush_ns.wrapping_add(ns),
                flush_reads: old(self).flush_reads.wrapping_add(reads),
                flush_writes: old(self).flush_writes.wrapping_add(writes),
                flushes: (old(self).flushes + 1) as u64,
                ..*old(self)
            }),
            due == (if stats::is_pow2(final(self).flushes as int) {
                Some(final(self).flushes)
            } else {
                None
            }),
    {
        self.flush_ns = self.flush_ns.wrapping_add(ns);
        self.flush_reads = self.flush_reads.wrapping_add(reads);
        self.flush_writes = self.flush_writes.wrapping_add(writes);
        self.flushes = self.flushes + 1;
        if stats::power_of_two(self.flushes) {
            Some(self.flushes)
        } else {
            None
        }
    }
}

/// Leaving undoes entering, but for the high-water mark, which is never below the gauge.
pub proof fn lemma_leave_balances_enter(before: Gauge)
    requires
        before.now <= before.max,
        before.now < u64::MAX,
    ensures
        ({
            let now = (before.now + 1) as u64;
            let entered = Gauge { now, max: stats::greatest(before.max, now) };
            &&& entered.now <= entered.max
            &&& entered.now.wrapping_sub(1) == before.now
        }),
{
}

/// The line on paging says how often it was recorded, and in whole milliseconds how long the block
/// map and the transfer took.
pub proof fn lemma_page_line_says(stats: PageStats, what: Seq<char>, collect: nat, io: nat)
    requires
        collect * 1_000_000 <= stats.collect_ns < (collect + 1) * 1_000_000,
        io * 1_000_000 <= stats.io_ns < (io + 1) * 1_000_000,
    ensures
        stats.line(what) == "PAGESTATS "@ + what + ": "@ + text::dec(stats.calls as nat)
            + " calls, collect "@ + text::dec(collect) + "ms, io "@ + text::dec(io) + "ms"@,
{
}

/// A request is counted once. Its pages are counted for reading or for allocating, never for both,
/// what the cache served apart from what was walked for, and what lies past the end of the file
/// apart from either. The other meters stay as they are.
pub proof fn lemma_request_is_counted_once(
    stats: ExtentStats,
    create: bool,
    hit: u32,
    walked: u32,
    past_eof: u32,
    warm: bool,
)
    requires
        stats.calls < u64::MAX,
    ensures
        ({
            let after = stats.recorded(create, hit, walked, past_eof, warm);
            let all: int = 0x1_0000_0000_0000_0000;
            &&& after.calls == stats.calls + 1
            &&& !create ==> after.hit_pages == (stats.hit_pages + hit) % all && after.walk_pages == (
            stats.walk_pages + walked) % all && after.create_hit_pages == stats.create_hit_pages
                && after.create_walk_pages == stats.create_walk_pages
            &&& create ==> after.create_hit_pages == (stats.create_hit_pages + hit) % all
                && after.create_walk_pages == (stats.create_walk_pages + walked) % all
                && after.hit_pages == stats.hit_pages && after.walk_pages == stats.walk_pages
            &&& after.eof_pages == (stats.eof_pages + past_eof) % all
            &&& warm ==> after.warm_object_calls == (stats.warm_object_calls + 1) % all
            &&& !warm ==> after.warm_object_calls == stats.warm_object_calls
            &&& after.walk_lookups == stats.walk_lookups
            &&& after.walk_calls == stats.walk_calls
            &&& after.rd_calls == stats.rd_calls
            &&& after.rd_iterated == stats.rd_iterated
            &&& after.rd_returned == stats.rd_returned
            &&& after.rd_skip == stats.rd_skip
            &&& after.ahead_pages == stats.ahead_pages
            &&& after.ahead_calls == stats.ahead_calls
            &&& after.inflight == stats.inflight
            &&& after.cached_inflight == stats.cached_inflight
        }),
{
}

/// The line on extents says each meter under its own name, and how often a map was too fragmented
/// to track.
pub proof fn lemma_extent_line_says(stats: ExtentStats, clears: u64)
    ensures
        stats.line(clears) == "EXTENTSTATS: "@ + text::dec(stats.calls as nat) + " calls ("@
            + text::dec(stats.warm_object_calls as nat) + " warm-object), "@ + text::dec(
            stats.walk_lookups as nat,
        ) + " lookups; read pages "@ + text::dec(stats.hit_pages as nat) + " hit / "@ + text::dec(
            stats.walk_pages as nat,
        ) + " walked / "@ + text::dec(stats.eof_pages as nat) + " past-eof / "@ + text::dec(
            stats.ahead_pages as nat,
        ) + " walked-ahead in "@ + text::dec(stats.ahead_calls as nat) + " calls; create pages "@
            + text::dec(stats.create_hit_pages as nat) + " hit / "@ + text::dec(
            stats.create_walk_pages as nat,
        ) + " walked; concurrency max "@ + (text::dec(stats.inflight.max as nat)
            + " in flight, max "@ + text::dec(stats.cached_inflight.max as nat)
            + " fs-lock-free; map overflow-clears "@ + text::dec(clears as nat)
            + "; walk entered "@ + text::dec(stats.walk_calls as nat) + "; readdir "@ + text::dec(
            stats.rd_calls as nat,
        ) + " calls, "@ + text::dec(stats.rd_iterated as nat) + " dirents iterated, "@ + text::dec(
            stats.rd_returned as nat,
        ) + " returned, "@ + text::dec(stats.rd_skip as nat) + " skipped"@),
{
}

/// A meter that nothing was counted on shows zero everywhere.
pub proof fn lemma_zero_is_zero()
    ensures
        ({
            let z = ExtentStats::zero();
            &&& z.hit_pages == 0 && z.walk_pages == 0 && z.eof_pages == 0
            &&& z.create_hit_pages == 0 && z.create_walk_pages == 0 && z.walk_lookups == 0
            &&& z.walk_calls == 0 && z.rd_calls == 0 && z.rd_iterated == 0 && z.rd_returned == 0
            &&& z.rd_skip == 0 && z.ahead_pages == 0 && z.ahead_calls == 0 && z.calls == 0
            &&& z.warm_object_calls == 0 && z.inflight.now == 0 && z.inflight.max == 0
            &&& z.cached_inflight.now == 0 && z.cached_inflight.max == 0
        }),
{
}

} // verus!
