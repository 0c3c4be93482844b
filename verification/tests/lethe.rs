use chacha20::cipher::{KeyIvInit, StreamCipher, StreamCipherSeek};
use chacha20::ChaCha20;
use object_store::lethe_object_store::chunks::{
    apply_chunk_cipher, chunk_ids, rekey, rekey_chunk,
};
use object_store::lethe_object_store::ids::{
    create_needed, decode_obj_id, decode_obj_ids, encode_obj_dir, encode_obj_id,
};
use object_store::lethe_object_store::khf::{
    after_step, begin_restore, KhfStep, RestoreStep, StepOutcome,
};
use object_store::lethe_object_store::state::{extents_retained, shown_chunk, DiskExtent};
use object_store::lethe_object_store::{
    disk_offset_to_id, id_to_disk_offset, key_fprint, LetheState, PerObjLetheState,
};
use object_store::ErrorKind;

#[test]
fn ids_are_written_in_32_digits() {
    assert_eq!(encode_obj_id(0), "00000000000000000000000000000000");
    assert_eq!(encode_obj_id(0xBEEF), "0000000000000000000000000000beef");
    assert_eq!(encode_obj_id(u128::MAX), "ffffffffffffffffffffffffffffffff");
    assert_eq!(encode_obj_dir(0xBEEF), "0");
    assert_eq!(encode_obj_dir(u128::MAX), "f");
}

#[test]
fn ids_read_back() {
    for id in [0u128, 1, 0xBEEF, 1 << 127, u128::MAX, 0x0123_4567_89ab_cdef] {
        assert_eq!(decode_obj_id(encode_obj_id(id).as_bytes()), Some(id));
    }
    assert_eq!(decode_obj_id(b"0000000000000000000000000000BEEF"), Some(0xBEEF));
    assert_eq!(decode_obj_id(b"+000000000000000000000000000beef"), Some(0xBEEF));
    assert_eq!(decode_obj_id(b"-000000000000000000000000000beef"), None);
    assert_eq!(decode_obj_id(b"0000000000000000000000000000beeg"), None);
    assert_eq!(decode_obj_id(b"beef"), None);
    assert_eq!(decode_obj_id(b""), None);
    let names: Vec<Vec<u8>> = vec![
        b".".to_vec(),
        b"..".to_vec(),
        encode_obj_id(7).into_bytes(),
        b"not a name, but thirty-two bytes".to_vec(),
        encode_obj_id(3).into_bytes(),
    ];
    assert_eq!(decode_obj_ids(&names), vec![7, 3]);
}

#[test]
fn objects_are_created_once() {
    assert_eq!(create_needed(Ok(())), Ok(false));
    assert_eq!(create_needed(Err(ErrorKind::NotFound)), Ok(true));
    assert_eq!(create_needed(Err(ErrorKind::Other)), Err(ErrorKind::Other));
}

#[test]
fn chunks_start_behind_the_first_kilobyte() {
    assert_eq!(disk_offset_to_id(1024), 0);
    assert_eq!(disk_offset_to_id(1024 + 4095), 0);
    assert_eq!(disk_offset_to_id(1024 + 4096), 1);
    assert_eq!(id_to_disk_offset(3), 13312);
    for id in [0u64, 1, 77, 1 << 40] {
        assert_eq!(disk_offset_to_id(id_to_disk_offset(id)), id);
    }
    assert_eq!(chunk_ids(&[1024, 6000, 5120]), vec![0, 1, 1]);
}

#[test]
fn keys_have_fingerprints() {
    assert_eq!(key_fprint(&[0; 32]), 0);
    assert_eq!(key_fprint(&[0xab; 32]), 0);
    let mut key = [0u8; 32];
    key[0] = 1;
    key[5] = 2;
    key[31] = 0x80;
    assert_eq!(key_fprint(&key), 0x8000_0201);
}

fn reference(key: [u8; 32], disk_offset: u64, data: &mut [u8]) {
    let chunk = (disk_offset - 1024) / 4096;
    let mut nonce = [0u8; 12];
    nonce[4..].copy_from_slice(&chunk.to_le_bytes());
    let mut cipher = ChaCha20::new(&key.into(), &nonce.into());
    cipher.seek(disk_offset - chunk);
    cipher.apply_keystream(data);
}

#[test]
fn chunks_are_encrypted() {
    let key = [7u8; 32];
    let plain: Vec<u8> = (0..300u32).map(|i| i as u8).collect();
    let mut data = plain.clone();
    apply_chunk_cipher(&key, 0x12345, &mut data);
    assert_ne!(data, plain);
    let mut expected = plain.clone();
    reference(key, 0x12345, &mut expected);
    assert_eq!(data, expected);
    apply_chunk_cipher(&key, 0x12345, &mut data);
    assert_eq!(data, plain);
}

#[test]
fn parts_of_a_chunk_are_encrypted_as_the_whole() {
    let key = [9u8; 32];
    let mut whole = vec![5u8; 1000];
    apply_chunk_cipher(&key, 9216, &mut whole);
    let mut front = vec![5u8; 333];
    let mut back = vec![5u8; 667];
    apply_chunk_cipher(&key, 9216, &mut front);
    apply_chunk_cipher(&key, 9216 + 333, &mut back);
    front.extend(back);
    assert_eq!(front, whole);
}

#[test]
fn chunks_are_taken_to_another_key() {
    let (old_key, new_key) = ([1u8; 32], [2u8; 32]);
    let plain = vec![0x5au8; 4096];
    let mut page = plain.clone();
    apply_chunk_cipher(&old_key, 5120, &mut page);
    let before = page.clone();
    rekey(&old_key, &new_key, 5120, &mut page);
    assert_ne!(page, before);
    apply_chunk_cipher(&new_key, 5120, &mut page);
    assert_eq!(page, plain);
}

/// Restores key files `(tmp, current, old)`, letting a crash stop it after `steps` steps.
fn restore(
    files: &mut (Option<u32>, Option<u32>, Option<u32>),
    steps: usize,
) -> Option<RestoreStep> {
    let mut next = begin_restore(files.0.is_some(), files.2.is_some());
    for _ in 0..steps {
        let step = match next {
            RestoreStep::Take(step) => step,
            _ => return Some(next),
        };
        let (from, to) = match step {
            KhfStep::SaveCurrent => (&mut files.1, Some(&mut files.2)),
            KhfStep::InstallNew => (&mut files.0, Some(&mut files.1)),
            KhfStep::RevertOld => (&mut files.2, Some(&mut files.1)),
            KhfStep::WipeOld => (&mut files.2, None),
        };
        let outcome = if from.is_none() {
            StepOutcome::NotFound
        } else {
            match to {
                Some(Some(_)) => StepOutcome::AlreadyExists,
                Some(to) => {
                    *to = from.take();
                    StepOutcome::Done
                }
                None => {
                    *from = None;
                    StepOutcome::Done
                }
            }
        };
        next = after_step(step, outcome);
    }
    match next {
        RestoreStep::Take(_) => None,
        _ => Some(next),
    }
}

#[test]
fn key_files_are_restored_whatever_a_crash_left() {
    let some = [None, Some(())];
    for tmp in some {
        for current in some {
            for old in some {
                let start = (tmp.map(|_| 1), current.map(|_| 2), old.map(|_| 3));
                if start == (Some(1), Some(2), Some(3)) {
                    continue;
                }
                let wanted = start.0.or(start.1).or(start.2);
                for crash in 0..4 {
                    let mut files = start;
                    restore(&mut files, crash);
                    assert_eq!(restore(&mut files, 4), Some(RestoreStep::Done));
                    assert_eq!(files, (None, wanted, None));
                }
            }
        }
    }
}

#[test]
fn restoring_stops_where_it_must_not_go_on() {
    let mut files = (Some(1), Some(2), Some(3));
    assert_eq!(restore(&mut files, 4), Some(RestoreStep::Stuck));
    assert_eq!(files, (Some(1), Some(2), Some(3)));
    assert_eq!(
        after_step(KhfStep::InstallNew, StepOutcome::Failed),
        RestoreStep::Stuck
    );
    assert_eq!(begin_restore(false, false), RestoreStep::Done);
}

#[test]
fn keys_are_shown_in_the_order_of_the_disk() {
    let mut state = PerObjLetheState::new(0xabc);
    let extent = |offset| DiskExtent { offset, size: 4096 };
    let mut key = [0u8; 32];
    key[0] = 0x1f;
    state.keys.push((extent(1024 + 4096 * 9), key));
    state.keys.push((extent(1024), [0; 32]));
    assert_eq!(
        state.summary(),
        "id: abc (2 extents)\n  -- 1024 (0):        0\n  -- 37888 (9):       1f\n  -- ...\n"
    );
    for i in 1..5u64 {
        state.keys.push((extent(1024 + 4096 * i), [0; 32]));
    }
    assert_eq!(
        state.summary(),
        "id: abc (6 extents)\n  -- 1024 (0):        0\n  -- 5120 (1):        0\n  -- 9216 (2):        0\n  -- 13312 (3):        0\n  -- ...\n"
    );
    assert_eq!(PerObjLetheState::new(0).summary(), "id: 0 (0 extents)\n  -- ...\n");
    assert_eq!(shown_chunk(&extent(8191)), 1);
    let all = LetheState { list: vec![state], roots: vec![(0, 1, [3; 32])] };
    assert_eq!(all.list.len(), 1);
    assert_eq!(all.roots[0].2[0], 3);
}

#[test]
fn writes_do_not_move_extents() {
    let a = DiskExtent { offset: 1024, size: 10 };
    let b = DiskExtent { offset: 5120, size: 10 };
    assert!(extents_retained(&[a], &[b, a]));
    assert!(extents_retained(&[], &[]));
    assert!(!extents_retained(&[a, b], &[a]));
    assert!(!extents_retained(&[a], &[DiskExtent { offset: 1024, size: 11 }]));
}

#[test]
fn a_part_of_the_disk_has_one_key() {
    let mut state = PerObjLetheState::new(1);
    let a = DiskExtent { offset: 1024, size: 4096 };
    let b = DiskExtent { offset: 1024, size: 512 };
    state.insert(a, [1; 32]);
    state.insert(b, [2; 32]);
    state.insert(a, [3; 32]);
    assert_eq!(state.keys, vec![(a, [3; 32]), (b, [2; 32])]);
}

#[test]
fn pieces_survive_an_epoch() {
    let (old_key, new_key) = ([4u8; 32], [5u8; 32]);
    let start = id_to_disk_offset(6);
    let mut chunk = vec![0u8; 4096];
    let mut data = b"asdf".to_vec();
    apply_chunk_cipher(&old_key, start + 1000, &mut data);
    chunk[1000..1004].copy_from_slice(&data);
    rekey(&old_key, &new_key, start, &mut chunk);
    let mut read = chunk[1000..1004].to_vec();
    assert_ne!(read, data);
    apply_chunk_cipher(&new_key, start + 1000, &mut read);
    assert_eq!(read, b"asdf");
}

#[test]
fn objects_survive_an_epoch() {
    let keys = |epoch: u8, chunk: u64| [epoch.wrapping_mul(31) ^ chunk as u8; 32];
    // An object of three pieces, two of them in one chunk: chunk, place in it, data.
    let parts: [(u64, usize, &[u8]); 3] = [(6, 4000, b"as"), (9, 0, b"df"), (6, 17, b"ghjk")];
    let mut disk = vec![vec![0u8; 4096]; 10];
    for (chunk, at, part) in parts {
        let mut data = part.to_vec();
        apply_chunk_cipher(&keys(1, chunk), id_to_disk_offset(chunk) + at as u64, &mut data);
        disk[chunk as usize][at..at + part.len()].copy_from_slice(&data);
    }
    // Chunk 6 is given a new key, and chunk 9 keeps its own.
    let before = disk[6].clone();
    rekey_chunk(6, &keys(1, 6), &keys(2, 6), &mut disk[6]);
    assert_ne!(disk[6], before);
    let mut read = Vec::new();
    for (chunk, at, part) in parts {
        let mut data = disk[chunk as usize][at..at + part.len()].to_vec();
        let key = keys(if chunk == 6 { 2 } else { 1 }, chunk);
        apply_chunk_cipher(&key, id_to_disk_offset(chunk) + at as u64, &mut data);
        read.extend(data);
    }
    assert_eq!(read, b"asdfghjk");
}
