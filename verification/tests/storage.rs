use shardnet::error::ShardError;
use shardnet::storage::{
    accept_loaded_shard, shard_file_name, LocalStorageEngine, Shard, StorageEngine,
};
use tempfile::tempdir;

fn engine() -> LocalStorageEngine {
    let dir = tempdir().unwrap();
    LocalStorageEngine::new(dir.path().to_str().unwrap())
}

#[test]
fn test_shard_and_reconstruct() {
    let engine = engine();
    let content = b"This is some super secret file content that needs to be sharded and reconstructed safely.";
    let k = 3;
    let n = 5;

    // Shard
    let shards = engine.shard_file(content, k, n).unwrap();
    assert_eq!(shards.len(), n);

    // Simulate missing shards (lose 2)
    let mut recovered_shards: Vec<Option<Shard>> = shards.into_iter().map(Some).collect();
    recovered_shards[0] = None;
    recovered_shards[3] = None;

    // Reconstruct
    let reconstructed = engine
        .reconstruct_file(&recovered_shards, k, n, content.len())
        .unwrap();
    assert_eq!(content.as_slice(), reconstructed.as_slice());
}

#[test]
fn shards_are_indexed_padded_and_checksummed() {
    let engine = engine();
    let content = b"abcdefghij";
    let shards = engine.shard_file(content, 4, 6).unwrap();
    assert_eq!(shards.len(), 6);
    for (i, shard) in shards.iter().enumerate() {
        assert_eq!(shard.index, i);
        assert_eq!(shard.data.len(), 3);
        assert!(shard.verify());
    }
    assert_eq!(shards[0].data, b"abc".to_vec());
    assert_eq!(shards[1].data, b"def".to_vec());
    assert_eq!(shards[2].data, b"ghi".to_vec());
    assert_eq!(shards[3].data, vec![b'j', 0, 0]);
}

#[test]
fn shard_checksum_is_sha256() {
    let shard = Shard::new(0, b"abc".to_vec());
    assert_eq!(
        shard.checksum,
        [
            0xba, 0x78, 0x16, 0xbf, 0x8f, 0x01, 0xcf, 0xea, 0x41, 0x41, 0x40, 0xde, 0x5d, 0xae,
            0x22, 0x23, 0xb0, 0x03, 0x61, 0xa3, 0x96, 0x17, 0x7a, 0x9c, 0xb4, 0x10, 0xff, 0x61,
            0xf2, 0x00, 0x15, 0xad
        ]
    );
    assert!(shard.verify());
}

#[test]
fn tampered_shard_fails_verification() {
    let mut shard = Shard::new(2, b"shard_data".to_vec());
    shard.data[0] ^= 0xff;
    assert!(!shard.verify());
    assert!(accept_loaded_shard(shard).is_none());
    let intact = Shard::new(2, b"shard_data".to_vec());
    assert_eq!(accept_loaded_shard(intact.clone()).unwrap().data, intact.data);
}

#[test]
fn every_choice_of_lost_shards_is_recoverable() {
    let engine = engine();
    let content: Vec<u8> = (0..=250u8).collect();
    let (k, n) = (3, 6);
    let shards = engine.shard_file(&content, k, n).unwrap();
    for a in 0..n {
        for b in 0..n {
            for c in 0..n {
                let mut slots: Vec<Option<Shard>> = shards.iter().cloned().map(Some).collect();
                slots[a] = None;
                slots[b] = None;
                slots[c] = None;
                let back = engine.reconstruct_file(&slots, k, n, content.len()).unwrap();
                assert_eq!(back, content);
            }
        }
    }
}

#[test]
fn too_many_lost_shards_fail() {
    let engine = engine();
    let shards = engine.shard_file(b"some content", 3, 5).unwrap();
    let mut slots: Vec<Option<Shard>> = shards.into_iter().map(Some).collect();
    slots[0] = None;
    slots[1] = None;
    slots[2] = None;
    assert_eq!(
        engine.reconstruct_file(&slots, 3, 5, 12).err(),
        Some(ShardError::ErasureReconstructionFailed)
    );
}

#[test]
fn invalid_parameters_are_refused() {
    let engine = engine();
    assert_eq!(engine.shard_file(b"x", 0, 5).err(), Some(ShardError::InvalidShardParameters));
    assert_eq!(engine.shard_file(b"x", 3, 0).err(), Some(ShardError::InvalidShardParameters));
    assert_eq!(engine.shard_file(b"x", 6, 5).err(), Some(ShardError::InvalidShardParameters));
    assert_eq!(engine.shard_file(b"x", 3, 257).err(), Some(ShardError::ErasureCoderInit));
}

#[test]
fn reconstruct_checks_slot_count_and_presence() {
    let engine = engine();
    let slots: Vec<Option<Shard>> = vec![None, None, None];
    assert_eq!(
        engine.reconstruct_file(&slots, 2, 4, 10).err(),
        Some(ShardError::ShardCountMismatch(4))
    );
    assert_eq!(engine.reconstruct_file(&slots, 2, 3, 10).err(), Some(ShardError::NoValidShards));
    assert_eq!(engine.reconstruct_file(&slots, 3, 3, 10).err(), Some(ShardError::NoValidShards));
}

#[test]
fn corrupted_shard_is_reported_by_index() {
    let engine = engine();
    let shards = engine.shard_file(b"content to protect", 2, 4).unwrap();
    let mut slots: Vec<Option<Shard>> = shards.into_iter().map(Some).collect();
    if let Some(shard) = slots[2].as_mut() {
        shard.data[0] ^= 1;
    }
    assert_eq!(
        engine.reconstruct_file(&slots, 2, 4, 18).err(),
        Some(ShardError::ShardChecksumFailed(2))
    );
}

#[test]
fn reconstruct_truncates_to_original_length() {
    let engine = engine();
    let shards = engine.shard_file(b"abcdefghij", 4, 6).unwrap();
    let slots: Vec<Option<Shard>> = shards.into_iter().map(Some).collect();
    assert_eq!(engine.reconstruct_file(&slots, 4, 6, 4).unwrap(), b"abcd".to_vec());
    assert_eq!(
        engine.reconstruct_file(&slots, 4, 6, 100).unwrap(),
        vec![b'a', b'b', b'c', b'd', b'e', b'f', b'g', b'h', b'i', b'j', 0, 0]
    );
}

#[test]
fn shard_file_names_follow_the_pattern() {
    assert_eq!(shard_file_name("test_file_123", 0), "test_file_123.shard.0");
    assert_eq!(shard_file_name("f", 1234), "f.shard.1234");
}

#[test]
fn all_data_shards_without_parity_round_trip() {
    let engine = engine();
    let content = b"no parity at all";
    let shards = engine.shard_file(content, 3, 3).unwrap();
    assert_eq!(shards.len(), 3);
    for (i, shard) in shards.iter().enumerate() {
        assert_eq!(shard.index, i);
        assert_eq!(shard.data.len(), 6);
        assert!(shard.verify());
    }
    let mut joined: Vec<u8> = Vec::new();
    for shard in &shards {
        joined.extend_from_slice(&shard.data);
    }
    assert_eq!(&joined[..content.len()], content.as_slice());
    assert_eq!(joined[content.len()..].to_vec(), vec![0u8, 0u8]);
    let slots: Vec<Option<Shard>> = shards.into_iter().map(Some).collect();
    let back = engine.reconstruct_file(&slots, 3, 3, content.len()).unwrap();
    assert_eq!(back.as_slice(), content.as_slice());
}

#[test]
fn without_parity_a_lost_shard_cannot_be_rebuilt() {
    let engine = engine();
    let content = b"no parity at all";
    let shards = engine.shard_file(content, 3, 3).unwrap();
    let mut slots: Vec<Option<Shard>> = shards.into_iter().map(Some).collect();
    slots[1] = None;
    assert_eq!(
        engine.reconstruct_file(&slots, 3, 3, content.len()).err(),
        Some(ShardError::ErasureReconstructionFailed)
    );
}

#[test]
fn distinct_shards_get_distinct_file_names() {
    assert_ne!(shard_file_name("a", 12), shard_file_name("a.shard.1", 2));
    assert_ne!(shard_file_name("file", 1), shard_file_name("file", 10));
    assert_eq!(shard_file_name("file", 7), shard_file_name("file", 7));
    assert!(!shard_file_name("file", 3).contains('/'));
}
