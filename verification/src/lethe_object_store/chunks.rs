//! The chunks of the disk, and the keys that they are encrypted under.

use chacha20::cipher::KeyIvInit;
use chacha20::cipher::StreamCipher;
use chacha20::cipher::StreamCipherSeek;
use vstd::prelude::*;

use crate::num;
use crate::PAGE_SIZE;

verus! {

/// The byte of the disk that the first chunk starts at.
pub const FIRST_CHUNK: u64 = 1024;

/// The chunk that a byte of the disk lies in.
pub open spec fn chunk_of(offset: int) -> int {
    (offset - FIRST_CHUNK) / PAGE_SIZE as int
}

/// The byte of the disk that a chunk starts at.
pub open spec fn chunk_start(id: int) -> int {
    id * PAGE_SIZE + FIRST_CHUNK
}

/// The chunk that a byte of the disk lies in.
pub fn disk_offset_to_id(offset: u64) -> (id: u64)
    requires
        offset >= FIRST_CHUNK,
    ensures
        id == chunk_of(offset as int),
{
    (offset - FIRST_CHUNK) / PAGE_SIZE as u64
}

/// The byte of the disk that a chunk starts at.
pub fn id_to_disk_offset(id: u64) -> (offset: u64)
    requires
        chunk_start(id as int) <= u64::MAX,
    ensures
        offset == chunk_start(id as int),
{
    id * PAGE_SIZE as u64 + FIRST_CHUNK
}

/// A chunk starts in itself, and a byte of the disk lies in the page that its chunk starts with.
pub proof fn lemma_chunks_round_trip(id: int, offset: int)
    requires
        id >= 0,
        offset >= FIRST_CHUNK,
    ensures
        chunk_of(chunk_start(id)) == id,
        chunk_start(chunk_of(offset)) <= offset < chunk_start(chunk_of(offset)) + PAGE_SIZE,
{
}

/// The chunks that bytes of the disk lie in.
pub fn chunk_ids(offsets: &[u64]) -> (ids: Vec<u64>)
    requires
        forall|i: int| 0 <= i < offsets@.len() ==> #[trigger] offsets@[i] >= FIRST_CHUNK,
    ensures
        ids@.len() == offsets@.len(),
        forall|i: int|
            0 <= i < offsets@.len() ==> #[trigger] ids@[i] == chunk_of(offsets@[i] as int),
{
    let mut ids: Vec<u64> = Vec::new();
    let mut i: usize = 0;
    while i < offsets.len()
        invariant
            i <= offsets.len(),
            ids@.len() == i,
            forall|j: int| 0 <= j < offsets@.len() ==> #[trigger] offsets@[j] >= FIRST_CHUNK,
            forall|j: int| 0 <= j < i ==> #[trigger] ids@[j] == chunk_of(offsets@[j] as int),
        decreases offsets.len() - i,
    {
        ids.push(disk_offset_to_id(offsets[i]));
        i = i + 1;
    }
    ids
}

/// The word of a key that starts at byte `4 * i`, the least significant byte first.
pub open spec fn key_word(key: Seq<u8>, i: int) -> u32 {
    (key[4 * i] + 256 * key[4 * i + 1] + 65536 * key[4 * i + 2] + 16777216 * key[4 * i
        + 3]) as u32
}

/// The first `n` words of a key, folded into one.
pub open spec fn folded(key: Seq<u8>, n: int) -> u32
    decreases n,
{
    if n <= 0 {
        0
    } else {
        folded(key, n - 1) ^ key_word(key, n - 1)
    }
}

/// A fingerprint of a key: its eight words folded into one.
pub fn key_fprint(key: &[u8; 32]) -> (fprint: u32)
    ensures
        fprint == folded(key@, 8),
{
    let mut fprint: u32 = 0;
    let mut i: usize = 0;
    while i < 8
        invariant
            i <= 8,
            fprint == folded(key@, i as int),
        decreases 8 - i,
    {
        let word: u32 = key[4 * i] as u32 + 256 * key[4 * i + 1] as u32 + 65536 * key[4 * i
            + 2] as u32 + 16777216 * key[4 * i + 3] as u32;
        fprint = fprint ^ word;
        i = i + 1;
    }
    fprint
}

/// The byte at position `pos` of the ChaCha20 keystream of a key and a nonce.
pub uninterp spec fn keystream_byte(key: Seq<u8>, nonce: Seq<u8>, pos: int) -> u8;

/// Whether so many bytes from a position on lie within a ChaCha20 keystream. A cipher counts its
/// blocks of 64 bytes in 32 bits, and the last block is only reached by starting in the middle of it.
pub open spec fn within_keystream(pos: int, len: int) -> bool {
    ||| pos + len <= 64 * u32::MAX
    ||| pos / 64 == u32::MAX && pos % 64 != 0 && pos + len <= 64 * (u32::MAX + 1)
}

/// `chacha20::ChaCha20`: `new` with a key and a nonce, `seek` to a position, and `apply_keystream`
/// to data, which XORs each byte of the data with the byte of the keystream at its position. The
/// keystream depends on the key, the nonce and the position alone.
#[verifier::external_body]
fn apply_keystream(key: &[u8; 32], nonce: &[u8; 12], pos: u64, data: &mut [u8])
    requires
        within_keystream(pos as int, old(data)@.len() as int),
    ensures
        final(data)@ == Seq::new(
            old(data)@.len(),
            |i: int| old(data)@[i] ^ keystream_byte(key@, nonce@, pos + i),
        ),
{
    let mut cipher = chacha20::ChaCha20::new(&(*key).into(), &(*nonce).into());
    cipher.seek(pos);
    cipher.apply_keystream(data);
}

/// The nonce of a chunk: four zeros, and the chunk's number.
pub open spec fn nonce_of(chunk: int) -> Seq<u8> {
    seq![0u8, 0u8, 0u8, 0u8] + num::le_bytes(chunk as nat, 8)
}

/// Where in its chunk's keystream a byte of the disk lies.
pub open spec fn stream_pos(offset: int) -> int {
    offset - chunk_of(offset)
}

/// Data that lies at `offset` of the disk, encrypted or decrypted under a key.
pub open spec fn ciphered(key: Seq<u8>, offset: int, data: Seq<u8>) -> Seq<u8> {
    Seq::new(
        data.len(),
        |i: int|
            data[i] ^ keystream_byte(key, nonce_of(chunk_of(offset)), stream_pos(offset) + i),
    )
}

/// The nonce of a chunk.
fn chunk_nonce(chunk: u64) -> (nonce: [u8; 12])
    ensures
        nonce@ == nonce_of(chunk as int),
{
    let b = num::to_le_bytes(chunk as u128, 8);
    proof {
        num::lemma_le_len(chunk as nat, 8);
    }
    let nonce: [u8; 12] = [0, 0, 0, 0, b[0], b[1], b[2], b[3], b[4], b[5], b[6], b[7]];
    assert(nonce@ =~= nonce_of(chunk as int));
    nonce
}

/// Encrypts or decrypts data that lies at `disk_offset` of the disk, under the key of the chunk
/// that it starts in.
pub fn apply_chunk_cipher(key: &[u8; 32], disk_offset: u64, data: &mut [u8])
    requires
        disk_offset >= FIRST_CHUNK,
        within_keystream(stream_pos(disk_offset as int), old(data)@.len() as int),
    ensures
        final(data)@ == ciphered(key@, disk_offset as int, old(data)@),
{
    let chunk = disk_offset_to_id(disk_offset);
    let nonce = chunk_nonce(chunk);
    apply_keystream(key, &nonce, disk_offset - chunk, data);
    assert(data@ =~= ciphered(key@, disk_offset as int, old(data)@));
}

/// Takes data that lies at `disk_offset` of the disk from under one key to under another.
pub fn rekey(old_key: &[u8; 32], new_key: &[u8; 32], disk_offset: u64, data: &mut [u8])
    requires
        disk_offset >= FIRST_CHUNK,
        within_keystream(stream_pos(disk_offset as int), old(data)@.len() as int),
    ensures
        final(data)@ == ciphered(
            new_key@,
            disk_offset as int,
            ciphered(old_key@, disk_offset as int, old(data)@),
        ),
{
    apply_chunk_cipher(old_key, disk_offset, data);
    apply_chunk_cipher(new_key, disk_offset, data);
}

/// What is written reads back: decrypting what was encrypted gives the data again.
pub proof fn lemma_cipher_undoes_itself(key: Seq<u8>, offset: int, data: Seq<u8>)
    ensures
        ciphered(key, offset, ciphered(key, offset, data)) == data,
{
    assert forall|i: int| 0 <= i < data.len() implies ciphered(
        key,
        offset,
        ciphered(key, offset, data),
    )[i] == data[i] by {
        let k = keystream_byte(key, nonce_of(chunk_of(offset)), stream_pos(offset) + i);
        let d = data[i];
        assert((d ^ k) ^ k == d) by (bit_vector);
    }
    assert(ciphered(key, offset, ciphered(key, offset, data)) =~= data);
}

/// How data is cut up within a chunk does not matter: encrypting the parts, each where it lies, is
/// encrypting the whole.
pub proof fn lemma_cipher_splits(key: Seq<u8>, offset: int, front: Seq<u8>, back: Seq<u8>)
    requires
        chunk_of(offset + front.len()) == chunk_of(offset),
    ensures
        ciphered(key, offset, front + back) == ciphered(key, offset, front) + ciphered(
            key,
            offset + front.len(),
            back,
        ),
{
    assert(ciphered(key, offset, front + back) =~= ciphered(key, offset, front) + ciphered(
        key,
        offset + front.len(),
        back,
    ));
}

/// Taking data to another key keeps what it says: decrypted under the new key it is what it was
/// under the old one.
pub proof fn lemma_rekey_keeps_plaintext(
    old_key: Seq<u8>,
    new_key: Seq<u8>,
    offset: int,
    data: Seq<u8>,
)
    ensures
        ciphered(new_key, offset, ciphered(new_key, offset, ciphered(old_key, offset, data)))
            == ciphered(old_key, offset, data),
{
    lemma_cipher_undoes_itself(new_key, offset, ciphered(old_key, offset, data));
}

/// A piece of an object: so many bytes of one chunk.
pub struct Piece {
    /// The chunk.
    pub chunk: int,
    /// Where in the chunk the piece starts.
    pub at: int,
    /// How many bytes it has.
    pub len: int,
}

impl Piece {
    /// Whether the piece lies in its chunk.
    pub open spec fn wf(self) -> bool {
        &&& 0 <= self.chunk
        &&& 0 <= self.at
        &&& 0 <= self.len
        &&& self.at + self.len <= PAGE_SIZE
    }

    /// The byte of the disk that the piece starts at.
    pub open spec fn offset(self) -> int {
        chunk_start(self.chunk) + self.at
    }

    /// What is stored for the piece in a chunk that holds `bytes`.
    pub open spec fn stored(self, bytes: Seq<u8>) -> Seq<u8> {
        bytes.subrange(self.at, self.at + self.len)
    }

    /// What reading the piece gives, where `disk` holds the bytes of each chunk and `keys` its key.
    pub open spec fn read(
        self,
        disk: spec_fn(int) -> Seq<u8>,
        keys: spec_fn(int) -> Seq<u8>,
    ) -> Seq<u8> {
        ciphered(keys(self.chunk), self.offset(), self.stored(disk(self.chunk)))
    }
}

/// A chunk taken from under one key to under another, whole.
pub open spec fn rekeyed(
    old_key: Seq<u8>,
    new_key: Seq<u8>,
    chunk: int,
    bytes: Seq<u8>,
) -> Seq<u8> {
    ciphered(
        new_key,
        chunk_start(chunk),
        ciphered(old_key, chunk_start(chunk), bytes),
    )
}

/// Takes a chunk from under one key to under another, whole.
pub fn rekey_chunk(id: u64, old_key: &[u8; 32], new_key: &[u8; 32], data: &mut [u8])
    requires
        chunk_start(id as int) <= u64::MAX,
        within_keystream(stream_pos(chunk_start(id as int)), old(data)@.len() as int),
    ensures
        final(data)@ == rekeyed(old_key@, new_key@, id as int, old(data)@),
{
    rekey(old_key, new_key, id_to_disk_offset(id), data);
}

/// A piece of a chunk that is taken to another key whole says what it said: decrypted under the new
/// key where it lies, it is what it was under the old one.
pub proof fn lemma_rekey_keeps_pieces(
    old_key: Seq<u8>,
    new_key: Seq<u8>,
    piece: Piece,
    bytes: Seq<u8>,
)
    requires
        piece.wf(),
        bytes.len() == PAGE_SIZE,
    ensures
        ciphered(
            new_key,
            piece.offset(),
            piece.stored(rekeyed(old_key, new_key, piece.chunk, bytes)),
        ) == ciphered(old_key, piece.offset(), piece.stored(bytes)),
{
    let start = chunk_start(piece.chunk);
    let after = rekeyed(old_key, new_key, piece.chunk, bytes);
    let there = ciphered(new_key, piece.offset(), piece.stored(after));
    let was = ciphered(old_key, piece.offset(), piece.stored(bytes));
    lemma_chunks_round_trip(piece.chunk, start);
    assert forall|i: int| 0 <= i < piece.len implies there[i] == was[i] by {
        assert(chunk_of(piece.offset()) == piece.chunk);
        let pos = stream_pos(start) + piece.at + i;
        let k = keystream_byte(old_key, nonce_of(piece.chunk), pos);
        let n = keystream_byte(new_key, nonce_of(piece.chunk), pos);
        let d = bytes[piece.at + i];
        assert(after[piece.at + i] == (d ^ k) ^ n);
        assert(((d ^ k) ^ n) ^ n == d ^ k) by (bit_vector);
    }
    assert(there =~= was);
}

/// The bytes of each chunk after an epoch: the chunks whose keys it changed are taken to the new
/// ones, and the others stay.
pub open spec fn after_epoch(
    disk: spec_fn(int) -> Seq<u8>,
    old_keys: spec_fn(int) -> Seq<u8>,
    new_keys: spec_fn(int) -> Seq<u8>,
    updated: Set<int>,
) -> spec_fn(int) -> Seq<u8> {
    |chunk: int|
        if updated.contains(chunk) {
            rekeyed(old_keys(chunk), new_keys(chunk), chunk, disk(chunk))
        } else {
            disk(chunk)
        }
}

/// What reading an object gives: what its pieces give, in order.
pub open spec fn contents(
    disk: spec_fn(int) -> Seq<u8>,
    keys: spec_fn(int) -> Seq<u8>,
    pieces: Seq<Piece>,
) -> Seq<u8>
    decreases pieces.len(),
{
    if pieces.len() == 0 {
        Seq::empty()
    } else {
        contents(disk, keys, pieces.drop_last()) + pieces.last().read(disk, keys)
    }
}

/// An epoch loses no object's contents: read under the new keys, an object says what it said under
/// the old ones, whichever chunks the epoch took to new keys.
pub proof fn lemma_epoch_keeps_contents(
    disk: spec_fn(int) -> Seq<u8>,
    old_keys: spec_fn(int) -> Seq<u8>,
    new_keys: spec_fn(int) -> Seq<u8>,
    updated: Set<int>,
    pieces: Seq<Piece>,
)
    requires
        forall|chunk: int| (#[trigger] disk(chunk)).len() == PAGE_SIZE,
        forall|chunk: int|
            !updated.contains(chunk) ==> #[trigger] new_keys(chunk) == old_keys(chunk),
        forall|i: int| 0 <= i < pieces.len() ==> (#[trigger] pieces[i]).wf(),
    ensures
        contents(after_epoch(disk, old_keys, new_keys, updated), new_keys, pieces) == contents(
            disk,
            old_keys,
            pieces,
        ),
    decreases pieces.len(),
{
    if pieces.len() > 0 {
        lemma_epoch_keeps_contents(disk, old_keys, new_keys, updated, pieces.drop_last());
        let last = pieces[pieces.len() - 1];
        assert(last.wf());
        if updated.contains(last.chunk) {
            lemma_rekey_keeps_pieces(
                old_keys(last.chunk),
                new_keys(last.chunk),
                last,
                disk(last.chunk),
            );
        }
    }
}

/// What was written reads back: a piece for which the encryption of some data is stored gives that
/// data.
pub proof fn lemma_written_piece_reads_back(
    disk: spec_fn(int) -> Seq<u8>,
    keys: spec_fn(int) -> Seq<u8>,
    piece: Piece,
    data: Seq<u8>,
)
    requires
        piece.stored(disk(piece.chunk)) == ciphered(keys(piece.chunk), piece.offset(), data),
    ensures
        piece.read(disk, keys) == data,
{
    lemma_cipher_undoes_itself(keys(piece.chunk), piece.offset(), data);
}

/// The bytes of each chunk once a piece has been written: the encryption of `data` takes its place.
pub open spec fn piece_written(
    disk: spec_fn(int) -> Seq<u8>,
    keys: spec_fn(int) -> Seq<u8>,
    piece: Piece,
    data: Seq<u8>,
) -> spec_fn(int) -> Seq<u8> {
    |chunk: int|
        if chunk == piece.chunk {
            disk(chunk).take(piece.at) + ciphered(keys(chunk), piece.offset(), data) + disk(
                chunk,
            ).skip(piece.at + piece.len)
        } else {
            disk(chunk)
        }
}

/// The bytes of each chunk once an object has been written, piece by piece.
pub open spec fn object_written(
    disk: spec_fn(int) -> Seq<u8>,
    keys: spec_fn(int) -> Seq<u8>,
    pieces: Seq<Piece>,
    parts: Seq<Seq<u8>>,
) -> spec_fn(int) -> Seq<u8>
    decreases pieces.len(),
{
    if pieces.len() == 0 {
        disk
    } else {
        piece_written(
            object_written(disk, keys, pieces.drop_last(), parts.drop_last()),
            keys,
            pieces.last(),
            parts.last(),
        )
    }
}

/// Parts of an object, put together.
pub open spec fn joined(parts: Seq<Seq<u8>>) -> Seq<u8>
    decreases parts.len(),
{
    if parts.len() == 0 {
        Seq::empty()
    } else {
        joined(parts.drop_last()) + parts.last()
    }
}

/// Whether two pieces share no byte.
pub open spec fn apart(a: Piece, b: Piece) -> bool {
    a.chunk != b.chunk || a.at + a.len <= b.at || b.at + b.len <= a.at
}

/// Whether the pieces lie in their chunks, share no byte, and have as many bytes as their parts.
pub open spec fn laid_out(pieces: Seq<Piece>, parts: Seq<Seq<u8>>) -> bool {
    &&& pieces.len() == parts.len()
    &&& forall|i: int|
        0 <= i < pieces.len() ==> (#[trigger] pieces[i]).wf() && pieces[i].len == parts[i].len()
    &&& forall|i: int, j: int|
        0 <= i < j < pieces.len() ==> apart(#[trigger] pieces[i], #[trigger] pieces[j])
}

proof fn lemma_object_written(
    disk: spec_fn(int) -> Seq<u8>,
    keys: spec_fn(int) -> Seq<u8>,
    pieces: Seq<Piece>,
    parts: Seq<Seq<u8>>,
)
    requires
        forall|chunk: int| (#[trigger] disk(chunk)).len() == PAGE_SIZE,
        laid_out(pieces, parts),
    ensures
        ({
            let after = object_written(disk, keys, pieces, parts);
            &&& forall|chunk: int| (#[trigger] after(chunk)).len() == PAGE_SIZE
            &&& forall|i: int|
                0 <= i < pieces.len() ==> (#[trigger] pieces[i]).stored(after(pieces[i].chunk))
                    == ciphered(keys(pieces[i].chunk), pieces[i].offset(), parts[i])
        }),
    decreases pieces.len(),
{
    if pieces.len() > 0 {
        let n = pieces.len() - 1;
        let (front, front_parts) = (pieces.drop_last(), parts.drop_last());
        assert forall|i: int| 0 <= i < front.len() implies (#[trigger] front[i]).wf()
            && front[i].len == front_parts[i].len() by {
            assert(pieces[i].wf());
        }
        assert forall|i: int, j: int| 0 <= i < j < front.len() implies apart(
            #[trigger] front[i],
            #[trigger] front[j],
        ) by {
            assert(apart(pieces[i], pieces[j]));
        }
        lemma_object_written(disk, keys, front, front_parts);
        let before = object_written(disk, keys, front, front_parts);
        let after = object_written(disk, keys, pieces, parts);
        let last = pieces[n];
        assert(last.wf() && last.len == parts[n].len());
        assert(before(last.chunk).len() == PAGE_SIZE);
        assert forall|chunk: int| (#[trigger] after(chunk)).len() == PAGE_SIZE by {
            assert(before(chunk).len() == PAGE_SIZE);
        }
        assert forall|i: int| 0 <= i < pieces.len() implies (#[trigger] pieces[i]).stored(
            after(pieces[i].chunk),
        ) == ciphered(keys(pieces[i].chunk), pieces[i].offset(), parts[i]) by {
            let piece = pieces[i];
            let stored = piece.stored(after(piece.chunk));
            if i == n {
                assert(stored =~= ciphered(keys(piece.chunk), piece.offset(), parts[i]));
            } else {
                assert(front[i] == piece && front_parts[i] == parts[i]);
                assert(front[i].stored(before(front[i].chunk)) == ciphered(
                    keys(piece.chunk),
                    piece.offset(),
                    parts[i],
                ));
                assert(apart(pieces[i], pieces[n]));
                assert(piece.wf());
                assert(stored =~= piece.stored(before(piece.chunk)));
            }
        }
    }
}

/// An object reads back as it was written, piece by piece: what its pieces give is what was written,
/// put together.
pub proof fn lemma_written_object_reads_back(
    disk: spec_fn(int) -> Seq<u8>,
    keys: spec_fn(int) -> Seq<u8>,
    pieces: Seq<Piece>,
    parts: Seq<Seq<u8>>,
)
    requires
        forall|chunk: int| (#[trigger] disk(chunk)).len() == PAGE_SIZE,
        laid_out(pieces, parts),
    ensures
        contents(object_written(disk, keys, pieces, parts), keys, pieces) == joined(parts),
{
    lemma_object_written(disk, keys, pieces, parts);
    let after = object_written(disk, keys, pieces, parts);
    lemma_stored_reads_back(after, keys, pieces, parts);
}

proof fn lemma_stored_reads_back(
    disk: spec_fn(int) -> Seq<u8>,
    keys: spec_fn(int) -> Seq<u8>,
    pieces: Seq<Piece>,
    parts: Seq<Seq<u8>>,
)
    requires
        pieces.len() == parts.len(),
        forall|i: int|
            0 <= i < pieces.len() ==> (#[trigger] pieces[i]).stored(disk(pieces[i].chunk))
                == ciphered(keys(pieces[i].chunk), pieces[i].offset(), parts[i]),
    ensures
        contents(disk, keys, pieces) == joined(parts),
    decreases pieces.len(),
{
    if pieces.len() > 0 {
        let n = pieces.len() - 1;
        let (front, front_parts) = (pieces.drop_last(), parts.drop_last());
        assert forall|i: int| 0 <= i < front.len() implies (#[trigger] front[i]).stored(
            disk(front[i].chunk),
        ) == ciphered(keys(front[i].chunk), front[i].offset(), front_parts[i]) by {
            assert(front[i] == pieces[i]);
        }
        lemma_stored_reads_back(disk, keys, front, front_parts);
        assert(pieces[n].stored(disk(pieces[n].chunk)) == ciphered(
            keys(pieces[n].chunk),
            pieces[n].offset(),
            parts[n],
        ));
        lemma_written_piece_reads_back(disk, keys, pieces[n], parts[n]);
    }
}

/// A chunk that an epoch gave a new key.
pub struct Update {
    /// The chunk.
    pub chunk: int,
    /// The key that it had before.
    pub old_key: Seq<u8>,
}

/// The bytes of each chunk once an epoch has taken the chunks that it gave new keys to those, one
/// after the other.
pub open spec fn epoch_taken(
    disk: spec_fn(int) -> Seq<u8>,
    updates: Seq<Update>,
    new_keys: spec_fn(int) -> Seq<u8>,
) -> spec_fn(int) -> Seq<u8>
    decreases updates.len(),
{
    if updates.len() == 0 {
        disk
    } else {
        let before = epoch_taken(disk, updates.drop_last(), new_keys);
        let last = updates.last();
        |chunk: int|
            if chunk == last.chunk {
                rekeyed(last.old_key, new_keys(chunk), chunk, before(chunk))
            } else {
                before(chunk)
            }
    }
}

/// The chunks that were given new keys.
pub open spec fn updated_chunks(updates: Seq<Update>) -> Set<int> {
    Set::new(
        |chunk: int|
            exists|i: int| 0 <= i < updates.len() && (#[trigger] updates[i]).chunk == chunk,
    )
}

/// Whether each chunk is given a new key once at most, and the keys are those before the epoch.
pub open spec fn updates_of(updates: Seq<Update>, old_keys: spec_fn(int) -> Seq<u8>) -> bool {
    &&& forall|i: int|
        0 <= i < updates.len() ==> (#[trigger] updates[i]).old_key == old_keys(updates[i].chunk)
    &&& forall|i: int, j: int|
        0 <= i < j < updates.len() ==> (#[trigger] updates[i]).chunk != (
        #[trigger] updates[j]).chunk
}

/// Taking the chunks to their new keys one after the other is taking each of them there, once.
pub proof fn lemma_epoch_takes_each_chunk(
    disk: spec_fn(int) -> Seq<u8>,
    updates: Seq<Update>,
    old_keys: spec_fn(int) -> Seq<u8>,
    new_keys: spec_fn(int) -> Seq<u8>,
)
    requires
        updates_of(updates, old_keys),
    ensures
        epoch_taken(disk, updates, new_keys) == after_epoch(
            disk,
            old_keys,
            new_keys,
            updated_chunks(updates),
        ),
    decreases updates.len(),
{
    let taken = epoch_taken(disk, updates, new_keys);
    let after = after_epoch(disk, old_keys, new_keys, updated_chunks(updates));
    if updates.len() > 0 {
        let n = updates.len() - 1;
        let front = updates.drop_last();
        assert(updates_of(front, old_keys)) by {
            assert forall|i: int| 0 <= i < front.len() implies (#[trigger] front[i]).old_key
                == old_keys(front[i].chunk) by {
                assert(front[i] == updates[i]);
            }
            assert forall|i: int, j: int| 0 <= i < j < front.len() implies (
            #[trigger] front[i]).chunk != (#[trigger] front[j]).chunk by {
                assert(updates[i].chunk != updates[j].chunk);
            }
        }
        lemma_epoch_takes_each_chunk(disk, front, old_keys, new_keys);
        assert forall|chunk: int| #[trigger] taken(chunk) == after(chunk) by {
            assert(updates[n].old_key == old_keys(updates[n].chunk));
            if chunk == updates[n].chunk {
                if updated_chunks(front).contains(chunk) {
                    let i = choose|i: int|
                        0 <= i < front.len() && (#[trigger] front[i]).chunk == chunk;
                    assert(updates[i].chunk != updates[n].chunk);
                }
            } else if updated_chunks(updates).contains(chunk) {
                let i = choose|i: int|
                    0 <= i < updates.len() && (#[trigger] updates[i]).chunk == chunk;
                assert(front[i].chunk == chunk);
            } else if updated_chunks(front).contains(chunk) {
                let i = choose|i: int|
                    0 <= i < front.len() && (#[trigger] front[i]).chunk == chunk;
                assert(updates[i].chunk == chunk);
            }
        }
    }
    assert(taken =~= after);
}

/// An object that was written reads back after an epoch: whatever pieces it was written in, and
/// whichever chunks the epoch gave new keys and took to them, it says what was written.
pub proof fn lemma_written_object_survives_epoch(
    disk: spec_fn(int) -> Seq<u8>,
    old_keys: spec_fn(int) -> Seq<u8>,
    new_keys: spec_fn(int) -> Seq<u8>,
    updates: Seq<Update>,
    pieces: Seq<Piece>,
    parts: Seq<Seq<u8>>,
)
    requires
        forall|chunk: int| (#[trigger] disk(chunk)).len() == PAGE_SIZE,
        laid_out(pieces, parts),
        updates_of(updates, old_keys),
        forall|chunk: int|
            !updated_chunks(updates).contains(chunk) ==> #[trigger] new_keys(chunk) == old_keys(
                chunk,
            ),
    ensures
        contents(
            epoch_taken(object_written(disk, old_keys, pieces, parts), updates, new_keys),
            new_keys,
            pieces,
        ) == joined(parts),
{
    let written = object_written(disk, old_keys, pieces, parts);
    lemma_object_written(disk, old_keys, pieces, parts);
    lemma_written_object_reads_back(disk, old_keys, pieces, parts);
    lemma_epoch_takes_each_chunk(written, updates, old_keys, new_keys);
    lemma_epoch_keeps_contents(written, old_keys, new_keys, updated_chunks(updates), pieces);
}

/// The chunks are pages that lie one behind another from byte 1024 of the disk on, and a byte lies
/// in the one chunk that reaches around it.
pub proof fn lemma_chunks_are_pages(id: int, offset: int)
    ensures
        chunk_start(id) == 1024 + 4096 * id,
        chunk_of(offset) == id <==> 1024 + 4096 * id <= offset < 1024 + 4096 * (id + 1),
{
}

/// The fingerprint of a key is the exclusive or of its eight words, each of four bytes with the
/// least significant one first.
pub proof fn lemma_fingerprint_is_of_all_words(key: Seq<u8>, words: Seq<u32>)
    requires
        key.len() == 32,
        words.len() == 8,
        forall|i: int|
            0 <= i < 8 ==> #[trigger] words[i] == key[4 * i] + 0x100 * key[4 * i + 1] + 0x1_0000
                * key[4 * i + 2] + 0x100_0000 * key[4 * i + 3],
    ensures
        folded(key, 8) == words[0] ^ words[1] ^ words[2] ^ words[3] ^ words[4] ^ words[5] ^ words[6]
            ^ words[7],
{
    reveal_with_fuel(folded, 9);
    assert forall|i: int| 0 <= i < 8 implies key_word(key, i) == #[trigger] words[i] by {}
    let w = words[0];
    assert(0u32 ^ w == w) by (bit_vector);
}

/// The byte at any place of the data is combined with one byte of the keystream: that of the key
/// that is given, of the nonce made of four zeros and the number of the chunk that the data starts
/// in, its least significant byte first, at the place that the byte has on the disk less the number
/// of that chunk.
pub proof fn lemma_cipher_byte(
    key: Seq<u8>,
    offset: int,
    data: Seq<u8>,
    chunk: int,
    nonce: Seq<u8>,
    i: int,
)
    requires
        0 <= chunk,
        1024 + 4096 * chunk <= offset < 1024 + 4096 * (chunk + 1),
        nonce.len() == 12,
        forall|j: int| 0 <= j < 4 ==> #[trigger] nonce[j] == 0,
        forall|j: int|
            4 <= j < 12 ==> #[trigger] nonce[j] == (chunk / vstd::arithmetic::power::pow(
                256,
                (j - 4) as nat,
            )) % 256,
        0 <= i < data.len(),
    ensures
        ciphered(key, offset, data).len() == data.len(),
        ciphered(key, offset, data)[i] == data[i] ^ keystream_byte(key, nonce, offset - chunk + i),
{
    num::lemma_le_len(chunk as nat, 8);
    assert forall|j: int| 0 <= j < 12 implies #[trigger] nonce[j] == nonce_of(chunk)[j] by {
        if j >= 4 {
            num::lemma_le_byte(chunk as nat, 8, j - 4);
        }
    }
    assert(nonce =~= nonce_of(chunk));
    lemma_chunks_are_pages(chunk, offset);
}

/// A chunk that is taken to another key is decrypted under the old one and encrypted under the new
/// one, from its first byte on.
pub proof fn lemma_rekeyed_is_from_the_start(
    old_key: Seq<u8>,
    new_key: Seq<u8>,
    chunk: int,
    bytes: Seq<u8>,
)
    ensures
        rekeyed(old_key, new_key, chunk, bytes) == ciphered(
            new_key,
            1024 + 4096 * chunk,
            ciphered(old_key, 1024 + 4096 * chunk, bytes),
        ),
        ciphered(new_key, 1024 + 4096 * chunk, rekeyed(old_key, new_key, chunk, bytes))
            == ciphered(old_key, 1024 + 4096 * chunk, bytes),
{
    lemma_rekey_keeps_plaintext(old_key, new_key, 1024 + 4096 * chunk, bytes);
}

} // verus!
