//! What there is to see of the keys.

use vstd::prelude::*;

use crate::lethe_object_store::chunks;
use crate::text;
use crate::PAGE_SIZE;

verus! {

/// A part of the disk that holds a part of an object.
#[derive(Clone, Copy, Debug, PartialEq, Eq, Hash, Structural)]
pub struct DiskExtent {
    /// The first byte.
    pub offset: u64,
    /// How many bytes.
    pub size: u32,
}

/// The keys of one object.
#[derive(Debug)]
pub struct PerObjLetheState {
    /// The object.
    pub id: u128,
    /// Each part of the disk that holds a part of the object, with its key.
    pub keys: Vec<(DiskExtent, [u8; 32])>,
}

/// The keys of all objects.
#[derive(Debug)]
pub struct LetheState {
    /// The keys of each object.
    pub list: Vec<PerObjLetheState>,
    /// The roots that all keys are derived from: where each stands, and its key.
    pub roots: Vec<(u64, u64, [u8; 32])>,
}

impl PerObjLetheState {
    /// An object without keys.
    pub fn new(id: u128) -> (state: Self)
        ensures
            state.id == id,
            state.keys@ == Seq::<(DiskExtent, [u8; 32])>::empty(),
            state.wf(),
    {
        PerObjLetheState { id, keys: Vec::new() }
    }

    /// Whether no part of the disk occurs twice.
    pub open spec fn wf(self) -> bool {
        forall|i: int, j: int|
            0 <= i < j < self.keys@.len() ==> (#[trigger] self.keys@[i]).0 != (
            #[trigger] self.keys@[j]).0
    }

    /// Whether `key` is the key of a part of the disk.
    pub open spec fn has_key(self, extent: DiskExtent, key: [u8; 32]) -> bool {
        exists|i: int| 0 <= i < self.keys@.len() && #[trigger] self.keys@[i] == (extent, key)
    }

    /// Notes the key of a part of the disk, in place of the one that was noted for it before, if
    /// any.
    pub fn insert(&mut self, extent: DiskExtent, key: [u8; 32])
        requires
            old(self).wf(),
        ensures
            final(self).wf(),
            final(self).id == old(self).id,
            forall|e: DiskExtent, k: [u8; 32]| #[trigger]
                final(self).has_key(e, k) <==> if e == extent {
                    k == key
                } else {
                    old(self).has_key(e, k)
                },
    {
        let ghost before = self.keys@;
        let mut at: usize = 0;
        while at < self.keys.len() && self.keys[at].0 != extent
            invariant
                at <= self.keys.len(),
                *self == *old(self),
                before == self.keys@,
                forall|i: int| 0 <= i < at ==> (#[trigger] before[i]).0 != extent,
            decreases self.keys.len() - at,
        {
            at = at + 1;
        }
        if at < self.keys.len() {
            self.keys.set(at, (extent, key));
        } else {
            self.keys.push((extent, key));
        }
        proof {
            let after = self.keys@;
            assert(after[at as int] == (extent, key));
            assert forall|i: int| 0 <= i < after.len() && i != at implies #[trigger] after[i]
                == before[i] && before[i].0 != extent by {}
            assert forall|e: DiskExtent, k: [u8; 32]| #[trigger]
                self.has_key(e, k) <==> if e == extent {
                    k == key
                } else {
                    old(self).has_key(e, k)
                } by {
                if e != extent && old(self).has_key(e, k) {
                    let i = choose|i: int|
                        0 <= i < before.len() && #[trigger] before[i] == (e, k);
                    assert(after[i] == (e, k));
                }
                if e != extent && self.has_key(e, k) {
                    let i = choose|i: int| 0 <= i < after.len() && #[trigger] after[i] == (e, k);
                    assert(before[i] == (e, k));
                }
            }
        }
    }

    /// Where each key's part of the disk starts, with a fingerprint of the key.
    pub open spec fn fprints(self) -> Seq<(u64, u32)> {
        Seq::new(
            self.keys@.len(),
            |i: int| (self.keys@[i].0.offset, chunks::folded(self.keys@[i].1@, 8)),
        )
    }

    /// The text that shows the object's keys: the first four in the order of the disk.
    pub fn summary(&self) -> (text: String)
        requires
            forall|i: int|
                0 <= i < self.keys@.len() ==> (#[trigger] self.keys@[i]).0.offset
                    >= chunks::FIRST_CHUNK,
        ensures
            exists|ordered: Seq<(u64, u32)>| #[trigger]
                is_arrangement(self.fprints(), ordered) && text@ == summary_text(self.id, ordered),
    {
        let mut shown: Vec<(u64, u32)> = Vec::new();
        let mut i: usize = 0;
        assert(self.fprints().take(0) =~= shown@);
        while i < self.keys.len()
            invariant
                i <= self.keys.len(),
                forall|j: int|
                    0 <= j < self.keys@.len() ==> (#[trigger] self.keys@[j]).0.offset
                        >= chunks::FIRST_CHUNK,
                sorted(shown@),
                shown@.len() == i,
                shown@.to_multiset() == self.fprints().take(i as int).to_multiset(),
                forall|j: int|
                    0 <= j < shown@.len() ==> (#[trigger] shown@[j]).0 >= chunks::FIRST_CHUNK,
            decreases self.keys.len() - i,
        {
            let key: (u64, u32) = (
                self.keys[i].0.offset,
                chunks::key_fprint(&self.keys[i].1),
            );
            proof {
                assert(self.keys@[i as int].0.offset >= chunks::FIRST_CHUNK);
                assert(self.fprints().take(i + 1) =~= self.fprints().take(i as int).push(key));
                self.fprints().take(i as int).to_multiset_ensures();
            }
            insert_sorted(&mut shown, key);
            i = i + 1;
        }
        let mut out = String::new();
        proof {
            assert(self.fprints().take(i as int) =~= self.fprints());
        }
        out.append("id: ");
        text::append_hex(&mut out, self.id);
        out.append(" (");
        text::append_dec(&mut out, self.keys.len() as u64);
        out.append(" extents)\n");
        let mut n: usize = 0;
        assert(out@ + key_lines(shown@, 0) =~= out@);
        let ghost head = out@;
        assert(head =~= head_line(self.id, shown@.len()));
        while n < shown.len() && n < 4
            invariant
                n <= shown.len(),
                n <= 4,
                forall|j: int|
                    0 <= j < shown@.len() ==> (#[trigger] shown@[j]).0 >= chunks::FIRST_CHUNK,
                out@ == head + key_lines(shown@, n as int),
            decreases shown.len() - n,
        {
            let (offset, fprint) = shown[n];
            assert(shown@[n as int].0 >= chunks::FIRST_CHUNK);
            let mut line = String::new();
            line.append("  -- ");
            text::append_dec(&mut line, offset);
            line.append(" (");
            text::append_dec(&mut line, chunks::disk_offset_to_id(offset));
            line.append("): ");
            text::append_hex_space_padded(&mut line, fprint as u128, 8);
            line.append("\n");
            assert(line@ =~= key_line(shown@[n as int]));
            out.append(line.as_str());
            assert(out@ =~= head + key_lines(shown@, n + 1));
            n = n + 1;
        }
        out.append("  -- ...\n");
        assert(out@ =~= summary_text(self.id, shown@));
        assert(is_arrangement(self.fprints(), shown@));
        out
    }
}

/// Whether keys stand in the order of the disk.
pub open spec fn sorted(keys: Seq<(u64, u32)>) -> bool {
    forall|i: int, j: int|
        0 <= i < j < keys.len() ==> (#[trigger] keys[i]).0 <= (#[trigger] keys[j]).0
}

/// Whether `ordered` are the keys in the order of the disk.
pub open spec fn is_arrangement(keys: Seq<(u64, u32)>, ordered: Seq<(u64, u32)>) -> bool {
    sorted(ordered) && ordered.to_multiset() == keys.to_multiset()
}

/// The line on the object.
pub open spec fn head_line(id: u128, nr: nat) -> Seq<char> {
    "id: "@ + text::hex(id as nat) + " ("@ + text::dec(nr) + " extents)\n"@
}

/// The line on one key.
pub open spec fn key_line(key: (u64, u32)) -> Seq<char> {
    "  -- "@ + text::dec(key.0 as nat) + " ("@ + text::dec(
        chunks::chunk_of(key.0 as int) as nat,
    ) + "): "@ + text::padded(text::hex(key.1 as nat), ' ', 8) + "\n"@
}

/// The lines on the first `n` keys.
pub open spec fn key_lines(keys: Seq<(u64, u32)>, n: int) -> Seq<char>
    decreases n,
{
    if n <= 0 {
        Seq::empty()
    } else {
        key_lines(keys, n - 1) + key_line(keys[n - 1])
    }
}

/// The text that shows an object's keys, which stand in the order of the disk.
pub open spec fn summary_text(id: u128, ordered: Seq<(u64, u32)>) -> Seq<char> {
    let shown: int = if ordered.len() < 4 {
        ordered.len() as int
    } else {
        4
    };
    head_line(id, ordered.len()) + key_lines(ordered, shown) + "  -- ...\n"@
}

/// Puts a key in its place among keys in the order of the disk, behind those that lie at the same
/// place.
fn insert_sorted(keys: &mut Vec<(u64, u32)>, key: (u64, u32))
    requires
        sorted(old(keys)@),
        forall|i: int|
            0 <= i < old(keys)@.len() ==> (#[trigger] old(keys)@[i]).0 >= chunks::FIRST_CHUNK,
        key.0 >= chunks::FIRST_CHUNK,
    ensures
        sorted(final(keys)@),
        final(keys)@.len() == old(keys)@.len() + 1,
        final(keys)@.to_multiset() == old(keys)@.to_multiset().insert(key),
        forall|i: int|
            0 <= i < final(keys)@.len() ==> (#[trigger] final(keys)@[i]).0 >= chunks::FIRST_CHUNK,
{
    let mut at: usize = keys.len();
    while at > 0 && keys[at - 1].0 > key.0
        invariant
            at <= keys.len(),
            keys@ == old(keys)@,
            sorted(keys@),
            forall|j: int| at <= j < keys@.len() ==> (#[trigger] keys@[j]).0 > key.0,
        decreases at,
    {
        at = at - 1;
    }
    let ghost before = keys@;
    keys.insert(at, key);
    proof {
        let after = keys@;
        assert(after == before.insert(at as int, key));
        vstd::seq_lib::to_multiset_insert(before, at as int, key);
        assert forall|i: int, j: int| 0 <= i < j < after.len() implies (#[trigger] after[i]).0 <= (
        #[trigger] after[j]).0 by {
            if j < at {
            } else if i >= at + 1 {
                assert(before[i - 1].0 <= before[j - 1].0);
            } else if i < at && j > at {
                assert(before[i].0 <= before[j - 1].0);
            } else if i < at {
                assert(before[i].0 <= before[at - 1].0);
            } else {
                assert(before[j - 1].0 > key.0);
            }
        }
        assert forall|i: int| 0 <= i < after.len() implies (#[trigger] after[i]).0
            >= chunks::FIRST_CHUNK by {
            if i < at {
                assert(after[i] == before[i]);
            } else if i > at {
                assert(after[i] == before[i - 1]);
            }
        }
    }
}

/// Where the keys lie at different places, there is one order of them, and so one text that shows
/// them.
pub proof fn lemma_arrangement_is_unique(
    keys: Seq<(u64, u32)>,
    a: Seq<(u64, u32)>,
    b: Seq<(u64, u32)>,
)
    requires
        is_arrangement(keys, a),
        is_arrangement(keys, b),
        forall|x: (u64, u32), y: (u64, u32)|
            #![trigger keys.contains(x), keys.contains(y)]
            keys.contains(x) && keys.contains(y) && x.0 == y.0 ==> x == y,
    ensures
        a == b,
{
    let leq = |x: (u64, u32), y: (u64, u32)| x.0 < y.0 || (x.0 == y.0 && x.1 <= y.1);
    lemma_sorted_in_full(keys, a, leq);
    lemma_sorted_in_full(keys, b, leq);
    vstd::seq_lib::lemma_sorted_unique(a, b, leq);
}

proof fn lemma_sorted_in_full(
    keys: Seq<(u64, u32)>,
    a: Seq<(u64, u32)>,
    leq: spec_fn((u64, u32), (u64, u32)) -> bool,
)
    requires
        is_arrangement(keys, a),
        forall|x: (u64, u32), y: (u64, u32)|
            #![trigger keys.contains(x), keys.contains(y)]
            keys.contains(x) && keys.contains(y) && x.0 == y.0 ==> x == y,
        leq == (|x: (u64, u32), y: (u64, u32)| x.0 < y.0 || (x.0 == y.0 && x.1 <= y.1)),
    ensures
        vstd::relations::sorted_by(a, leq),
{
    keys.to_multiset_ensures();
    a.to_multiset_ensures();
    assert forall|i: int, j: int| 0 <= i < j < a.len() implies #[trigger] leq(a[i], a[j]) by {
        assert(a.contains(a[i]) && a.contains(a[j]));
        assert(keys.to_multiset().count(a[i]) > 0 && keys.to_multiset().count(a[j]) > 0);
        assert(keys.contains(a[i]) && keys.contains(a[j]));
    }
}

/// The chunk under whose number the key that is shown for a part of the disk is derived: counted
/// from the start of the disk.
pub fn shown_chunk(extent: &DiskExtent) -> (chunk: u64)
    ensures
        chunk == extent.offset / 4096,
{
    extent.offset / PAGE_SIZE as u64
}

/// Whether every part of the disk that held a part of an object before a write still does.
pub fn extents_retained(before: &[DiskExtent], after: &[DiskExtent]) -> (retained: bool)
    ensures
        retained == (forall|i: int|
            0 <= i < before@.len() ==> after@.contains(#[trigger] before@[i])),
{
    let mut i: usize = 0;
    while i < before.len()
        invariant
            i <= before.len(),
            forall|j: int| 0 <= j < i ==> after@.contains(#[trigger] before@[j]),
        decreases before.len() - i,
    {
        let mut found = false;
        let mut k: usize = 0;
        while k < after.len() && !found
            invariant
                i < before.len(),
                k <= after.len(),
                found ==> after@.contains(before@[i as int]),
                !found ==> forall|j: int| 0 <= j < k ==> #[trigger] after@[j] != before@[i as int],
            decreases after.len() - k,
        {
            if after[k] == before[i] {
                assert(after@[k as int] == before@[i as int]);
                found = true;
            }
            k = k + 1;
        }
        if !found {
            assert(!after@.contains(before@[i as int]));
            return false;
        }
        i = i + 1;
    }
    true
}

/// What is shown of a key is where its part of the disk starts and the fingerprint of the key.
pub proof fn lemma_fprints_are_of_the_keys(state: PerObjLetheState, i: int)
    requires
        0 <= i < state.keys@.len(),
    ensures
        state.fprints().len() == state.keys@.len(),
        state.fprints()[i].0 == state.keys@[i].0.offset,
        state.fprints()[i].1 == chunks::folded(state.keys@[i].1@, 8),
{
}

/// The line on a key says where its part of the disk starts, in which chunk that is, and the
/// fingerprint in hexadecimal, as wide as eight digits.
pub proof fn lemma_key_line_says(key: (u64, u32), chunk: nat)
    requires
        1024 + 4096 * chunk <= key.0 < 1024 + 4096 * (chunk + 1),
    ensures
        key_line(key) == "  -- "@ + text::dec(key.0 as nat) + " ("@ + text::dec(chunk) + "): "@
            + text::padded(text::hex(key.1 as nat), ' ', 8) + "\n"@,
{
    chunks::lemma_chunks_are_pages(chunk as int, key.0 as int);
}

/// The text on an object names it and says how many keys it has, and shows the first four of them in
/// the order of the disk, or all where there are no more: nothing else of the keys matters to it.
pub proof fn lemma_summary_shows_four(id: u128, a: Seq<(u64, u32)>, b: Seq<(u64, u32)>)
    requires
        a.len() == b.len(),
        forall|i: int| 0 <= i < 4 && i < a.len() ==> #[trigger] a[i] == b[i],
    ensures
        summary_text(id, a) == summary_text(id, b),
        a.len() == 0 ==> summary_text(id, a) == "id: "@ + text::hex(id as nat) + " ("@ + text::dec(
            a.len(),
        ) + " extents)\n"@ + Seq::<char>::empty() + "  -- ...\n"@,
        a.len() == 1 ==> summary_text(id, a) == "id: "@ + text::hex(id as nat) + " ("@ + text::dec(
            a.len(),
        ) + " extents)\n"@ + key_line(a[0]) + "  -- ...\n"@,
        a.len() == 2 ==> summary_text(id, a) == "id: "@ + text::hex(id as nat) + " ("@ + text::dec(
            a.len(),
        ) + " extents)\n"@ + (key_line(a[0]) + key_line(a[1])) + "  -- ...\n"@,
        a.len() == 3 ==> summary_text(id, a) == "id: "@ + text::hex(id as nat) + " ("@ + text::dec(
            a.len(),
        ) + " extents)\n"@ + (key_line(a[0]) + key_line(a[1]) + key_line(a[2])) + "  -- ...\n"@,
        a.len() >= 4 ==> summary_text(id, a) == "id: "@ + text::hex(id as nat) + " ("@ + text::dec(
            a.len(),
        ) + " extents)\n"@ + (key_line(a[0]) + key_line(a[1]) + key_line(a[2]) + key_line(a[3]))
            + "  -- ...\n"@,
{
    reveal_with_fuel(key_lines, 5);
    let none = Seq::<char>::empty();
    if a.len() > 0 {
        assert(a[0] == b[0]);
        assert(none + key_line(a[0]) =~= key_line(a[0]));
    }
    if a.len() > 1 {
        assert(a[1] == b[1]);
    }
    if a.len() > 2 {
        assert(a[2] == b[2]);
    }
    if a.len() > 3 {
        assert(a[3] == b[3]);
    }
}

/// Keys in the order of the disk are the same keys, as often as before, and none stands before one
/// that starts earlier.
pub proof fn lemma_arrangement_keeps_keys(
    keys: Seq<(u64, u32)>,
    ordered: Seq<(u64, u32)>,
    key: (u64, u32),
)
    requires
        is_arrangement(keys, ordered),
    ensures
        ordered.len() == keys.len(),
        ordered.to_multiset().count(key) == keys.to_multiset().count(key),
        forall|i: int, j: int|
            0 <= i < j < ordered.len() ==> (#[trigger] ordered[i]).0 <= (#[trigger] ordered[j]).0,
{
    keys.to_multiset_ensures();
    ordered.to_multiset_ensures();
}

} // verus!
