use vstd::prelude::*;

use crate::crypto::{unwrapped, KeyManager, WRAPPED_KEY_LEN};
use crate::error::ShardError;
use crate::storage::{
    bytes_result, is_sharding_of, reconstructed, valid_layout, LocalStorageEngine, Shard,
    StorageEngine,
};

verus! {

/// The global transfer budget: 1 MB/s = 1,048,576 bytes per second.
pub const MAX_BYTES_PER_SECOND: u32 = 1_048_576;

// ---------------------------------------------------------------------------
// Throttling decisions
// ---------------------------------------------------------------------------

/// The size of the next chunk to wait for when `remaining` bytes are left.
pub open spec fn chunk_for(remaining: nat) -> nat {
    if remaining < MAX_BYTES_PER_SECOND {
        remaining
    } else {
        MAX_BYTES_PER_SECOND as nat
    }
}

/// One step of the throttle loop: with `remaining` bytes of a transfer still
/// to pace, the chunk to wait for and what is left after it, or `None` when
/// nothing is left.
pub fn throttle_step(remaining: usize) -> (step: Option<(u32, usize)>)
    ensures
        remaining == 0 <==> step is None,
        step matches Some((chunk, rest)) ==> chunk == chunk_for(remaining as nat) && rest
            == remaining - chunk,
{
    if remaining == 0 {
        return None;
    }
    let chunk: u32 = if remaining < MAX_BYTES_PER_SECOND as usize {
        remaining as u32
    } else {
        MAX_BYTES_PER_SECOND
    };
    Some((chunk, remaining - chunk as usize))
}

/// The chunks the throttle loop waits for, in order, from `remaining` bytes.
pub open spec fn throttle_chunks(remaining: nat) -> Seq<nat>
    decreases remaining,
{
    if remaining == 0 {
        Seq::empty()
    } else {
        seq![chunk_for(remaining)] + throttle_chunks((remaining - chunk_for(remaining)) as nat)
    }
}

/// The sum of a sequence of counts.
pub open spec fn total(s: Seq<nat>) -> nat
    decreases s.len(),
{
    if s.len() == 0 {
        0
    } else {
        s[0] + total(s.drop_first())
    }
}

/// Law: stepping the throttle loop from `remaining` bytes waits for exactly
/// `remaining` bytes in all, in chunks that are never empty and never above
/// the per-second cap.
pub proof fn lemma_throttle_chunks(remaining: nat)
    ensures
        total(throttle_chunks(remaining)) == remaining,
        forall|i: int|
            0 <= i < throttle_chunks(remaining).len() ==> 0 < #[trigger] throttle_chunks(
                remaining,
            )[i] <= MAX_BYTES_PER_SECOND,
    decreases remaining,
{
    if remaining > 0 {
        let rest = (remaining - chunk_for(remaining)) as nat;
        lemma_throttle_chunks(rest);
        let chunks = throttle_chunks(remaining);
        assert(chunks.drop_first() =~= throttle_chunks(rest));
        assert forall|i: int| 0 <= i < chunks.len() implies 0 < #[trigger] chunks[i]
            <= MAX_BYTES_PER_SECOND by {
            if i > 0 {
                assert(chunks[i] == throttle_chunks(rest)[i - 1]);
            }
        }
    }
}

// ---------------------------------------------------------------------------
// Lazy re-encryption
// ---------------------------------------------------------------------------

/// Re-encrypts a file whose shards were loaded: reconstructs the data,
/// unwraps the file key (the first 60 bytes) with the old master key, wraps
/// it with the new one, and re-shards the new key followed by the unchanged
/// encrypted payload. The payload itself is never decrypted.
pub fn reencrypt_loaded_shards(
    engine: &LocalStorageEngine,
    loaded: &[Option<Shard>],
    k: usize,
    n: usize,
    original_len: usize,
    old_master_key: &[u8; 32],
    new_master_key: &[u8; 32],
) -> (res: Result<Vec<Shard>, ShardError>)
    requires
        loaded@.len() == n ==> k <= n,
    ensures
        reconstructed(loaded@, k, n, original_len) matches Err(e) ==> res == Err::<
            Vec<Shard>,
            ShardError,
        >(e),
        reconstructed(loaded@, k, n, original_len) matches Ok(data) ==> {
            &&& data.len() < WRAPPED_KEY_LEN ==> res == Err::<Vec<Shard>, ShardError>(
                ShardError::WrappedKeyMissing,
            )
            &&& data.len() >= WRAPPED_KEY_LEN ==> match unwrapped(
                old_master_key@,
                data.take(WRAPPED_KEY_LEN as int),
            ) {
                Err(e) => res == Err::<Vec<Shard>, ShardError>(e),
                Ok(file_key) => res matches Ok(shards) && exists|wrapped: Seq<u8>|
                    {
                        &&& wrapped.len() == WRAPPED_KEY_LEN
                        &&& unwrapped(new_master_key@, wrapped) == Ok::<Seq<u8>, ShardError>(
                            file_key,
                        )
                        &&& #[trigger] is_sharding_of(
                            shards@,
                            wrapped + data.skip(WRAPPED_KEY_LEN as int),
                            k as nat,
                            n as nat,
                        )
                    },
            }
        },
{
    let data = match engine.reconstruct_file(loaded, k, n, original_len) {
        Ok(d) => d,
        Err(e) => {
            return Err(e);
        },
    };
    assert(bytes_result(Ok::<Vec<u8>, ShardError>(data)) == reconstructed(loaded@, k, n, original_len));
    if data.len() < WRAPPED_KEY_LEN {
        return Err(ShardError::WrappedKeyMissing);
    }
    let old_wrapped = vstd::slice::slice_subrange(data.as_slice(), 0, WRAPPED_KEY_LEN);
    let payload = vstd::slice::slice_subrange(data.as_slice(), WRAPPED_KEY_LEN, data.len());
    assert(old_wrapped@ =~= data@.take(WRAPPED_KEY_LEN as int));
    assert(payload@ =~= data@.skip(WRAPPED_KEY_LEN as int));
    let file_key = match KeyManager::unwrap_key(old_master_key, old_wrapped) {
        Ok(key) => key,
        Err(e) => {
            return Err(e);
        },
    };
    let new_wrapped = match KeyManager::wrap_key(new_master_key, &file_key) {
        Ok(w) => w,
        Err(e) => {
            return Err(e);
        },
    };
    let mut new_data: Vec<u8> = Vec::new();
    new_data.extend_from_slice(new_wrapped.as_slice());
    new_data.extend_from_slice(payload);
    assert(new_data@ =~= new_wrapped@ + payload@);
    assert(valid_layout(k as int, n as int));
    let new_shards = match engine.shard_file(new_data.as_slice(), k, n) {
        Ok(shards) => shards,
        Err(e) => {
            return Err(e);
        },
    };
    assert(is_sharding_of(
        new_shards@,
        new_wrapped@ + data@.skip(WRAPPED_KEY_LEN as int),
        k as nat,
        n as nat,
    ));
    Ok(new_shards)
}

} // verus!
