use shardnet::crypto::{KeyManager, Cipher};
use shardnet::error::ShardError;
use shardnet::storage::{LocalStorageEngine, Shard, StorageEngine};
use shardnet::sync::{reencrypt_loaded_shards, throttle_step, MAX_BYTES_PER_SECOND};

#[test]
fn throttle_steps_cover_the_budget_in_capped_chunks() {
    let mut remaining: usize = 2 * 1_048_576 + 10;
    let mut chunks = Vec::new();
    while let Some((chunk, rest)) = throttle_step(remaining) {
        chunks.push(chunk);
        remaining = rest;
    }
    assert_eq!(chunks, vec![MAX_BYTES_PER_SECOND, MAX_BYTES_PER_SECOND, 10]);
    assert_eq!(throttle_step(0), None);
}

#[test]
fn throttle_paces_transfers_beyond_four_gibibytes() {
    if usize::BITS == 64 {
        let bytes = ((1u64 << 32) + 7) as usize;
        let mut remaining = bytes;
        let mut total: u64 = 0;
        let mut steps: u64 = 0;
        while let Some((chunk, rest)) = throttle_step(remaining) {
            assert!(chunk > 0 && chunk <= MAX_BYTES_PER_SECOND);
            total += chunk as u64;
            steps += 1;
            remaining = rest;
        }
        assert_eq!(total, bytes as u64);
        assert_eq!(steps, 4097);
    }
}

fn file_with_wrapped_key(master: &[u8; 32], file_key: &[u8; 32], payload: &[u8]) -> Vec<u8> {
    let mut data = KeyManager::wrap_key(master, file_key).unwrap();
    data.extend_from_slice(payload);
    data
}

#[test]
fn reencryption_moves_the_key_and_keeps_the_payload() {
    let engine = LocalStorageEngine::new("/tmp/shardnet-sync");
    let old_mk = [1u8; 32];
    let new_mk = [2u8; 32];
    let file_key = [3u8; 32];
    let payload = Cipher::encrypt(&file_key, b"file contents").unwrap();
    let data = file_with_wrapped_key(&old_mk, &file_key, &payload);
    let shards = engine.shard_file(&data, 3, 5).unwrap();
    let mut loaded: Vec<Option<Shard>> = shards.into_iter().map(Some).collect();
    loaded[1] = None;
    let new_shards =
        reencrypt_loaded_shards(&engine, &loaded, 3, 5, data.len(), &old_mk, &new_mk).unwrap();
    let slots: Vec<Option<Shard>> = new_shards.into_iter().map(Some).collect();
    let new_data = engine.reconstruct_file(&slots, 3, 5, data.len()).unwrap();
    assert_eq!(&new_data[60..], payload.as_slice());
    assert_eq!(KeyManager::unwrap_key(&new_mk, &new_data[..60]).unwrap(), file_key);
    assert_eq!(
        KeyManager::unwrap_key(&old_mk, &new_data[..60]).err(),
        Some(ShardError::DecryptionFailed)
    );
}

#[test]
fn reencryption_needs_a_wrapped_key() {
    let engine = LocalStorageEngine::new("/tmp/shardnet-sync");
    let shards = engine.shard_file(&[7u8; 40], 3, 5).unwrap();
    let loaded: Vec<Option<Shard>> = shards.into_iter().map(Some).collect();
    assert_eq!(
        reencrypt_loaded_shards(&engine, &loaded, 3, 5, 40, &[1u8; 32], &[2u8; 32]).err(),
        Some(ShardError::WrappedKeyMissing)
    );
}

#[test]
fn reencryption_with_the_wrong_old_key_fails() {
    let engine = LocalStorageEngine::new("/tmp/shardnet-sync");
    let data = file_with_wrapped_key(&[1u8; 32], &[3u8; 32], b"payload");
    let shards = engine.shard_file(&data, 2, 3).unwrap();
    let loaded: Vec<Option<Shard>> = shards.into_iter().map(Some).collect();
    assert_eq!(
        reencrypt_loaded_shards(&engine, &loaded, 2, 3, data.len(), &[9u8; 32], &[2u8; 32]).err(),
        Some(ShardError::DecryptionFailed)
    );
}
