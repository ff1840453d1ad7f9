use vstd::prelude::*;

use crate::error::ShardError;
use reed_solomon_erasure::galois_8::ReedSolomon;
use sha2::{Digest, Sha256};

verus! {

// ---------------------------------------------------------------------------
// SHA-256 (sha2)
// ---------------------------------------------------------------------------

/// The SHA-256 digest of `data` as the `sha2` crate computes it.
pub uninterp spec fn sha256(data: Seq<u8>) -> Seq<u8>;

/// Calls `sha2::Sha256::digest`. Claimed: the 32 bytes returned are the digest
/// named `sha256` of `data`, a function of `data` alone.
#[verifier::external_body]
fn sha256_digest(data: &[u8]) -> (digest: [u8; 32])
    ensures
        digest@ == sha256(data@),
{
    Sha256::digest(data).into()
}

// ---------------------------------------------------------------------------
// Reed-Solomon erasure coding (reed-solomon-erasure, GF(2^8))
// ---------------------------------------------------------------------------

#[verifier::external_type_specification]
#[verifier::external_body]
pub struct ExErasureError(reed_solomon_erasure::Error);

/// The shard counts that `ReedSolomon::new` accepts over GF(2^8): at least one
/// data shard, at least one parity shard, at most 256 shards in all.
pub open spec fn erasure_params_ok(data_count: int, parity_count: int) -> bool {
    &&& data_count > 0
    &&& parity_count > 0
    &&& data_count + parity_count <= 256
}

/// The bytes held by each vector.
pub open spec fn byte_seqs(v: Seq<Vec<u8>>) -> Seq<Seq<u8>> {
    Seq::new(v.len(), |i: int| v[i]@)
}

/// The bytes held by each slot that holds a vector.
pub open spec fn slot_seqs(v: Seq<Option<Vec<u8>>>) -> Seq<Option<Seq<u8>>> {
    Seq::new(
        v.len(),
        |i: int|
            match v[i] {
                Some(b) => Some(b@),
                None => None,
            },
    )
}

/// Every shard of `shards` has `size` bytes.
pub open spec fn uniform_shards(shards: Seq<Seq<u8>>, size: nat) -> bool {
    forall|i: int| 0 <= i < shards.len() ==> (#[trigger] shards[i]).len() == size
}

/// The parity shards that `ReedSolomon::encode` computes from `data_shards`.
pub uninterp spec fn rs_parity(data_shards: Seq<Seq<u8>>, parity_count: nat) -> Seq<Seq<u8>>;

/// The full set of shards that `ReedSolomon::reconstruct` rebuilds from `slots`.
pub uninterp spec fn rs_rebuilt(slots: Seq<Option<Seq<u8>>>, data_count: nat) -> Seq<Seq<u8>>;

/// The parity shards of `data_shards`: none when no parity is asked for,
/// otherwise what the coder computes.
pub open spec fn parity_of(data_shards: Seq<Seq<u8>>, parity_count: nat) -> Seq<Seq<u8>> {
    if parity_count == 0 {
        Seq::empty()
    } else {
        rs_parity(data_shards, parity_count)
    }
}

/// `word` is an encoding: equally sized, non-empty shards whose parity part
/// is that of the data part.
pub open spec fn is_codeword(word: Seq<Seq<u8>>, data_count: nat, parity_count: nat) -> bool {
    &&& data_count > 0
    &&& word.len() == data_count + parity_count
    &&& word[0].len() > 0
    &&& uniform_shards(word, word[0].len())
    &&& word.skip(data_count as int) == parity_of(word.take(data_count as int), parity_count)
}

/// Number of slots that hold a shard.
pub open spec fn present_count(slots: Seq<Option<Seq<u8>>>) -> nat
    decreases slots.len(),
{
    if slots.len() == 0 {
        0
    } else {
        present_count(slots.drop_last()) + if slots.last() is Some {
            1nat
        } else {
            0nat
        }
    }
}

/// All present slots hold non-empty shards of one size.
pub open spec fn present_uniform(slots: Seq<Option<Seq<u8>>>) -> bool {
    forall|i: int, j: int|
        0 <= i < slots.len() && 0 <= j < slots.len() && #[trigger] slots[i] is Some
            && #[trigger] slots[j] is Some ==> slots[i]->0.len() == slots[j]->0.len()
            && slots[i]->0.len() > 0
}

/// What `ReedSolomon::reconstruct` accepts once the slot count is right.
pub open spec fn rebuildable(slots: Seq<Option<Seq<u8>>>, data_count: nat) -> bool {
    present_uniform(slots) && present_count(slots) >= data_count
}

/// Every present slot holds the shard of `word` at its position.
pub open spec fn agrees_with(slots: Seq<Option<Seq<u8>>>, word: Seq<Seq<u8>>) -> bool {
    &&& slots.len() == word.len()
    &&& forall|i: int| 0 <= i < slots.len() && #[trigger] slots[i] is Some ==> slots[i]->0 == word[i]
}

/// Every slot filled with the shard of `word` at its position.
pub open spec fn all_present(word: Seq<Seq<u8>>) -> Seq<Option<Seq<u8>>> {
    Seq::new(word.len(), |i: int| Some(word[i]))
}

/// Calls `ReedSolomon::new` over GF(2^8). Claimed, as its source shows: it
/// succeeds exactly on the counts of `erasure_params_ok`.
#[verifier::external_body]
fn erasure_coder_check(data_count: usize, parity_count: usize) -> (res: Result<
    (),
    reed_solomon_erasure::Error,
>)
    requires
        data_count + parity_count <= usize::MAX,
    ensures
        res is Ok <==> erasure_params_ok(data_count as int, parity_count as int),
{
    match ReedSolomon::new(data_count, parity_count) {
        Ok(_) => Ok(()),
        Err(e) => Err(e),
    }
}

/// Calls `ReedSolomon::new` and then `ReedSolomon::encode` on `shards`.
/// Claimed, as the source shows: it succeeds exactly when there are
/// `data_count + parity_count` shards, all non-empty and of one size; it then
/// keeps the data shards, overwrites the parity slots with `rs_parity` of the
/// data shards and changes no length; on failure nothing is touched.
#[verifier::external_body]
fn erasure_encode(data_count: usize, parity_count: usize, shards: &mut Vec<Vec<u8>>) -> (res:
    Result<(), reed_solomon_erasure::Error>)
    requires
        erasure_params_ok(data_count as int, parity_count as int),
    ensures
        res is Ok <==> (old(shards)@.len() == data_count + parity_count && old(shards)@[0]@.len()
            > 0 && uniform_shards(byte_seqs(old(shards)@), old(shards)@[0]@.len())),
        res is Ok ==> byte_seqs(final(shards)@) == byte_seqs(old(shards)@).take(data_count as int)
            + rs_parity(byte_seqs(old(shards)@).take(data_count as int), parity_count as nat),
        res is Ok ==> final(shards)@.len() == old(shards)@.len(),
        res is Ok ==> uniform_shards(byte_seqs(final(shards)@), old(shards)@[0]@.len()),
        res is Err ==> final(shards)@ == old(shards)@,
{
    match ReedSolomon::new(data_count, parity_count) {
        Ok(rs) => rs.encode(shards),
        Err(e) => Err(e),
    }
}

/// Calls `ReedSolomon::new` and then `ReedSolomon::reconstruct` on `slots`.
/// Claimed, as the source and documentation show: it succeeds exactly when the
/// present shards are non-empty, of one size and at least `data_count` in
/// number; it then fills every slot with `rs_rebuilt` of the slots, leaving
/// present shards as they were; on failure nothing is touched. And, as an
/// erasure code promises: when the present shards agree with an encoding,
/// the rebuilt shards are that encoding.
#[verifier::external_body]
fn erasure_reconstruct(
    data_count: usize,
    parity_count: usize,
    slots: &mut Vec<Option<Vec<u8>>>,
) -> (res: Result<(), reed_solomon_erasure::Error>)
    requires
        erasure_params_ok(data_count as int, parity_count as int),
        old(slots)@.len() == data_count + parity_count,
    ensures
        res is Ok <==> rebuildable(slot_seqs(old(slots)@), data_count as nat),
        res is Ok ==> final(slots)@.len() == old(slots)@.len(),
        res is Ok ==> slot_seqs(final(slots)@) == all_present(
            rs_rebuilt(slot_seqs(old(slots)@), data_count as nat),
        ),
        res is Ok ==> agrees_with(
            slot_seqs(old(slots)@),
            rs_rebuilt(slot_seqs(old(slots)@), data_count as nat),
        ),
        res is Ok ==> forall|i: int, j: int|
            0 <= i < old(slots)@.len() && 0 <= j < old(slots)@.len() && #[trigger] slot_seqs(
                old(slots)@,
            )[j] is Some ==> (#[trigger] rs_rebuilt(slot_seqs(old(slots)@), data_count as nat)[i]).len()
                == slot_seqs(old(slots)@)[j]->0.len(),
        res is Err ==> final(slots)@ == old(slots)@,
        forall|word: Seq<Seq<u8>>|
            is_codeword(word, data_count as nat, parity_count as nat) && agrees_with(
                slot_seqs(old(slots)@),
                word,
            ) && present_count(slot_seqs(old(slots)@)) >= data_count ==> res is Ok && rs_rebuilt(
                slot_seqs(old(slots)@),
                data_count as nat,
            ) == word,
{
    match ReedSolomon::new(data_count, parity_count) {
        Ok(rs) => rs.reconstruct(slots),
        Err(e) => Err(e),
    }
}

// ---------------------------------------------------------------------------
// Shards
// ---------------------------------------------------------------------------

/// A local shard: a chunk of encrypted data with its SHA-256 checksum.
#[derive(Debug, Clone)]
pub struct Shard {
    pub index: usize,
    pub data: Vec<u8>,
    pub checksum: [u8; 32],
}

impl Shard {
    /// The stored checksum is the digest of the stored data.
    pub open spec fn is_intact(&self) -> bool {
        self.checksum@ == sha256(self.data@)
    }

    /// Creates a new shard and computes its SHA-256 checksum.
    pub fn new(index: usize, data: Vec<u8>) -> (shard: Shard)
        ensures
            shard.index == index,
            shard.data@ == data@,
            shard.is_intact(),
    {
        let checksum = sha256_digest(data.as_slice());
        Shard { index, data, checksum }
    }

    /// Verifies the shard data against its stored checksum.
    pub fn verify(&self) -> (ok: bool)
        ensures
            ok == self.is_intact(),
    {
        let computed = sha256_digest(self.data.as_slice());
        let mut i: usize = 0;
        while i < 32
            invariant
                0 <= i <= 32,
                computed@ == sha256(self.data@),
                forall|j: int| 0 <= j < i ==> self.checksum@[j] == computed@[j],
            decreases 32 - i,
        {
            if self.checksum[i] != computed[i] {
                assert(self.checksum@[i as int] != computed@[i as int]);
                return false;
            }
            i = i + 1;
        }
        assert(self.checksum@ =~= computed@);
        true
    }
}


// ---------------------------------------------------------------------------
// The sharding model
// ---------------------------------------------------------------------------

/// Shard counts for which sharding succeeds: `k` data shards out of `n`
/// (`n - k` parity shards); with parity, at most the coder's 256 shards.
pub open spec fn valid_layout(k: int, n: int) -> bool {
    0 < k && k <= n && (k < n ==> n <= 256)
}

/// Zero bytes appended to content of `len` bytes so that `k` divides its length.
pub open spec fn pad_len(len: nat, k: nat) -> nat {
    if len % k == 0 {
        0
    } else {
        (k - len % k) as nat
    }
}

/// The content followed by its padding.
pub open spec fn padded(content: Seq<u8>, k: nat) -> Seq<u8> {
    content + Seq::new(pad_len(content.len(), k), |i: int| 0u8)
}

/// The size of each shard for content of `len` bytes split `k` ways.
pub open spec fn shard_len(len: nat, k: nat) -> nat {
    (len + pad_len(len, k)) / k
}

/// `m` consecutive chunks of `size` bytes taken from the front of `bytes`.
pub open spec fn chunks(bytes: Seq<u8>, m: nat, size: nat) -> Seq<Seq<u8>> {
    Seq::new(m, |i: int| bytes.subrange(i * size, (i + 1) * size))
}

/// The `k` data shards of `content`: its padded bytes cut into equal parts.
pub open spec fn data_shards(content: Seq<u8>, k: nat) -> Seq<Seq<u8>> {
    chunks(padded(content, k), k, shard_len(content.len(), k))
}

/// The `n` shards of `content`: its data shards followed by their parity.
pub open spec fn encoded_shards(content: Seq<u8>, k: nat, n: nat) -> Seq<Seq<u8>> {
    data_shards(content, k) + parity_of(data_shards(content, k), (n - k) as nat)
}

/// What `shard_file` returns on `content`: the shards of `encoded_shards`, in
/// order, indexed by position, each with a matching checksum.
pub open spec fn is_sharding_of(shards: Seq<Shard>, content: Seq<u8>, k: nat, n: nat) -> bool {
    &&& shards.len() == n
    &&& is_codeword(encoded_shards(content, k, n), k, (n - k) as nat)
    &&& forall|i: int|
        0 <= i < n ==> {
            &&& (#[trigger] shards[i]).index == i
            &&& shards[i].data@ == encoded_shards(content, k, n)[i]
            &&& shards[i].is_intact()
        }
}

proof fn lemma_padding(len: nat, k: nat)
    requires
        k > 0,
    ensures
        len + pad_len(len, k) == k * shard_len(len, k),
        pad_len(len, k) < k,
        len > 0 ==> shard_len(len, k) > 0,
{
    let q = len as int / k as int;
    let r = len as int % k as int;
    vstd::arithmetic::div_mod::lemma_fundamental_div_mod(len as int, k as int);
    let m: int = if r == 0 {
        q
    } else {
        q + 1
    };
    vstd::arithmetic::mul::lemma_mul_is_distributive_add(k as int, q, 1);
    assert(len + pad_len(len, k) == k * m);
    vstd::arithmetic::div_mod::lemma_div_multiples_vanish(m, k as int);
    assert(q >= 0) by (nonlinear_arith)
        requires
            q == len as int / k as int,
            k > 0,
    ;
    if len > 0 && m == 0 {
        assert(q == 0);
        assert(r == 0);
        assert(len == k * q + r);
        assert(k * 0 == 0);
    }
}

proof fn lemma_chunk_bounds(i: int, m: int, size: int)
    requires
        0 <= i < m,
        size >= 0,
    ensures
        0 <= i * size,
        (i + 1) * size == i * size + size,
        (i + 1) * size <= m * size,
{
    vstd::arithmetic::mul::lemma_mul_is_distributive_add(size, i, 1);
    vstd::arithmetic::mul::lemma_mul_inequality(i + 1, m, size);
    vstd::arithmetic::mul::lemma_mul_nonnegative(i, size);
    assert((i + 1) * size == size * (i + 1)) by (nonlinear_arith);
    assert(i * size == size * i) by (nonlinear_arith);
}

proof fn lemma_chunks_flatten(bytes: Seq<u8>, m: nat, size: nat)
    requires
        m * size <= bytes.len(),
    ensures
        chunks(bytes, m, size).flatten_alt() == bytes.subrange(0, (m * size) as int),
    decreases m,
{
    if m == 0 {
        assert(m * size == 0) by (nonlinear_arith)
            requires
                m == 0,
        ;
        assert(chunks(bytes, m, size).flatten_alt() =~= bytes.subrange(0, 0));
    } else {
        let prev = (m - 1) as nat;
        lemma_chunk_bounds(prev as int, m as int, size as int);
        assert(prev * size <= m * size) by (nonlinear_arith)
            requires
                prev < m,
        ;
        lemma_chunks_flatten(bytes, prev, size);
        assert(chunks(bytes, m, size).drop_last() =~= chunks(bytes, prev, size));
        assert(chunks(bytes, m, size).last() == bytes.subrange((prev * size) as int, (m * size) as int));
        assert(chunks(bytes, m, size).flatten_alt() =~= bytes.subrange(0, (m * size) as int));
    }
}

proof fn lemma_data_shard_at(content: Seq<u8>, k: nat, i: int)
    requires
        k > 0,
        0 <= i < k,
    ensures
        data_shards(content, k)[i] == padded(content, k).subrange(
            i * shard_len(content.len(), k),
            (i + 1) * shard_len(content.len(), k),
        ),
{
}

/// The data shards of `content`, joined, give back `content` and its padding.
proof fn lemma_data_shards_join(content: Seq<u8>, k: nat)
    requires
        k > 0,
    ensures
        data_shards(content, k).flatten_alt() == padded(content, k),
        data_shards(content, k).len() == k,
        forall|i: int|
            0 <= i < k ==> (#[trigger] data_shards(content, k)[i]).len() == shard_len(
                content.len(),
                k,
            ),
{
    lemma_padding(content.len(), k);
    let s = shard_len(content.len(), k);
    lemma_chunks_flatten(padded(content, k), k, s);
    assert(padded(content, k).subrange(0, (k * s) as int) =~= padded(content, k));
    assert forall|i: int| 0 <= i < k implies (#[trigger] data_shards(content, k)[i]).len() == s by {
        lemma_chunk_bounds(i, k as int, s as int);
    }
}

/// The bytes of each slot that holds a shard.
pub open spec fn slot_data(slots: Seq<Option<Shard>>) -> Seq<Option<Seq<u8>>> {
    Seq::new(
        slots.len(),
        |i: int|
            match slots[i] {
                Some(shard) => Some(shard.data@),
                None => None,
            },
    )
}

/// The size of the first present shard at or after position `i`, or 0.
pub open spec fn first_present_len_from(slots: Seq<Option<Seq<u8>>>, i: int) -> nat
    decreases slots.len() - i,
{
    if i < 0 || i >= slots.len() {
        0
    } else if slots[i] is Some {
        slots[i]->0.len()
    } else {
        first_present_len_from(slots, i + 1)
    }
}

/// The size of the first present shard, or 0 when none is present.
pub open spec fn first_present_len(slots: Seq<Option<Seq<u8>>>) -> nat {
    first_present_len_from(slots, 0)
}

/// A present shard whose checksum does not match its data.
pub open spec fn is_unintact(slot: Option<Shard>) -> bool {
    slot is Some && !slot->0.is_intact()
}

/// Position `i` holds the first shard that fails its checksum.
pub open spec fn first_unintact_at(slots: Seq<Option<Shard>>, i: int) -> bool {
    &&& 0 <= i < slots.len()
    &&& is_unintact(slots[i])
    &&& forall|j: int| 0 <= j < i ==> !is_unintact(slots[j])
}

/// The slots pass every check that comes before the erasure decoding: their
/// number, the shard counts, a non-empty first shard and every checksum.
pub open spec fn slots_checked(slots: Seq<Option<Shard>>, k: nat, n: nat) -> bool {
    &&& slots.len() == n
    &&& valid_layout(k as int, n as int)
    &&& first_present_len(slot_data(slots)) > 0
    &&& forall|i: int| 0 <= i < slots.len() ==> !is_unintact(#[trigger] slots[i])
}

/// `bytes` cut to `len` bytes when it is longer.
pub open spec fn truncated(bytes: Seq<u8>, len: nat) -> Seq<u8> {
    if len <= bytes.len() {
        bytes.take(len as int)
    } else {
        bytes
    }
}

/// The slots hold intact shards of the sharding of `content` at their own
/// positions, at least `k` of them, with the rest missing.
pub open spec fn holds_encoding_of(
    slots: Seq<Option<Shard>>,
    content: Seq<u8>,
    k: nat,
    n: nat,
) -> bool {
    &&& valid_layout(k as int, n as int)
    &&& content.len() > 0
    &&& is_codeword(encoded_shards(content, k, n), k, (n - k) as nat)
    &&& agrees_with(slot_data(slots), encoded_shards(content, k, n))
    &&& present_count(slot_data(slots)) >= k
    &&& forall|i: int| 0 <= i < slots.len() ==> !is_unintact(#[trigger] slots[i])
}

proof fn lemma_first_present_from(slots: Seq<Option<Seq<u8>>>, first: int)
    requires
        0 <= first <= slots.len(),
        forall|j: int| 0 <= j < first ==> slots[j] is None,
    ensures
        first_present_len(slots) == first_present_len_from(slots, first),
    decreases first,
{
    if first > 0 {
        lemma_first_present_from(slots, first - 1);
    }
}

proof fn lemma_present_nonempty(slots: Seq<Option<Seq<u8>>>, i: int)
    requires
        0 <= i <= slots.len(),
        exists|j: int| i <= j < slots.len() && slots[j] is Some,
        forall|j: int| 0 <= j < slots.len() && slots[j] is Some ==> slots[j]->0.len() > 0,
    ensures
        first_present_len_from(slots, i) > 0,
    decreases slots.len() - i,
{
    if slots[i] is None {
        lemma_present_nonempty(slots, i + 1);
    }
}

proof fn lemma_some_present(slots: Seq<Option<Seq<u8>>>)
    requires
        present_count(slots) > 0,
    ensures
        exists|j: int| 0 <= j < slots.len() && slots[j] is Some,
    decreases slots.len(),
{
    if slots.last() is None {
        lemma_some_present(slots.drop_last());
        let j = choose|j: int| 0 <= j < slots.drop_last().len() && slots.drop_last()[j] is Some;
        assert(slots[j] is Some);
    } else {
        assert(slots[slots.len() - 1] is Some);
    }
}

/// The full set of shards rebuilt from `slots` with `k` data shards: the
/// coder's rebuild when there is parity, the slots themselves when not.
pub open spec fn rebuilt_from(slots: Seq<Option<Seq<u8>>>, k: nat) -> Seq<Seq<u8>> {
    if k < slots.len() {
        rs_rebuilt(slots, k)
    } else {
        Seq::new(slots.len(), |i: int| slots[i]->0)
    }
}

/// The bytes of the first `k` slots, joined (all assumed present).
pub open spec fn present_data_joined(slots: Seq<Option<Shard>>, k: nat) -> Seq<u8> {
    Seq::new(k, |i: int| slots[i]->0.data@).flatten_alt()
}

/// What reconstructing the content from `slots` gives: the checks in order,
/// then the data shards that the erasure coder rebuilds, joined and cut to
/// `original_len` bytes.
pub open spec fn reconstructed(
    slots: Seq<Option<Shard>>,
    k: usize,
    n: usize,
    original_len: usize,
) -> Result<Seq<u8>, ShardError> {
    if slots.len() != n {
        Err(ShardError::ShardCountMismatch(n))
    } else if !valid_layout(k as int, n as int) {
        Err(ShardError::ErasureCoderInit)
    } else if first_present_len(slot_data(slots)) == 0 {
        Err(ShardError::NoValidShards)
    } else if exists|i: int| first_unintact_at(slots, i) {
        Err(ShardError::ShardChecksumFailed((choose|i: int| first_unintact_at(slots, i)) as usize))
    } else if !rebuildable(slot_data(slots), k as nat) {
        Err(ShardError::ErasureReconstructionFailed)
    } else {
        Ok(
            truncated(
                rebuilt_from(slot_data(slots), k as nat).take(k as int).flatten_alt(),
                original_len as nat,
            ),
        )
    }
}

/// The view of a byte-vector result.
pub open spec fn bytes_result(res: Result<Vec<u8>, ShardError>) -> Result<Seq<u8>, ShardError> {
    match res {
        Ok(v) => Ok(v@),
        Err(e) => Err(e),
    }
}

proof fn lemma_first_unintact_unique(slots: Seq<Option<Shard>>, i: int)
    requires
        first_unintact_at(slots, i),
    ensures
        forall|j: int| #[trigger] first_unintact_at(slots, j) ==> j == i,
{
}

/// Slots holding enough intact shards of an encoding pass every check and can
/// be rebuilt.
proof fn lemma_encoding_passes_checks(slots: Seq<Option<Shard>>, content: Seq<u8>, k: nat, n: nat)
    requires
        holds_encoding_of(slots, content, k, n),
    ensures
        slots_checked(slots, k, n),
        rebuildable(slot_data(slots), k),
{
    let word = encoded_shards(content, k, n);
    let data = slot_data(slots);
    let size = word[0].len();
    assert forall|j: int| 0 <= j < data.len() && data[j] is Some implies data[j]->0.len() == size
        && size > 0 by {
        assert(data[j]->0 == word[j]);
    }
    lemma_some_present(data);
    lemma_present_nonempty(data, 0);
}

/// Number of `true` entries.
pub open spec fn kept_count(keep: Seq<bool>) -> nat
    decreases keep.len(),
{
    if keep.len() == 0 {
        0
    } else {
        kept_count(keep.drop_last()) + if keep.last() {
            1nat
        } else {
            0nat
        }
    }
}

/// The slots that keep the shards marked in `keep` and lose the others.
pub open spec fn kept_slots(shards: Seq<Shard>, keep: Seq<bool>) -> Seq<Option<Shard>> {
    Seq::new(
        shards.len(),
        |i: int|
            if keep[i] {
                Some(shards[i])
            } else {
                None
            },
    )
}

proof fn lemma_kept_count(shards: Seq<Shard>, keep: Seq<bool>)
    requires
        keep.len() == shards.len(),
    ensures
        present_count(slot_data(kept_slots(shards, keep))) == kept_count(keep),
    decreases keep.len(),
{
    if keep.len() > 0 {
        let s2 = shards.drop_last();
        let k2 = keep.drop_last();
        lemma_kept_count(s2, k2);
        assert(slot_data(kept_slots(shards, keep)).drop_last() =~= slot_data(kept_slots(s2, k2)));
    }
}

/// Law: shards lost from a sharding leave the content recoverable as long as
/// `k` of them are kept. The slots that keep the shards marked in `keep` (and
/// are empty elsewhere) hold an encoding of `content`, from which
/// `reconstruct_file` gives `content` back.
pub proof fn lemma_kept_shards_hold_encoding(
    shards: Seq<Shard>,
    content: Seq<u8>,
    k: nat,
    n: nat,
    keep: Seq<bool>,
)
    requires
        valid_layout(k as int, n as int),
        content.len() > 0,
        is_sharding_of(shards, content, k, n),
        keep.len() == n,
        kept_count(keep) >= k,
    ensures
        holds_encoding_of(kept_slots(shards, keep), content, k, n),
{
    lemma_kept_count(shards, keep);
    let slots = kept_slots(shards, keep);
    let word = encoded_shards(content, k, n);
    assert forall|i: int| 0 <= i < slots.len() && #[trigger] slot_data(slots)[i] is Some implies slot_data(
        slots,
    )[i]->0 == word[i] by {
        assert(shards[i].data@ == word[i]);
    }
    assert forall|i: int| 0 <= i < slots.len() implies !is_unintact(#[trigger] slots[i]) by {
        if keep[i] {
            assert(shards[i].is_intact());
        }
    }
}

proof fn lemma_present_count_bound(slots: Seq<Option<Seq<u8>>>)
    ensures
        present_count(slots) <= slots.len(),
        present_count(slots) == slots.len() <==> forall|i: int|
            0 <= i < slots.len() ==> #[trigger] slots[i] is Some,
    decreases slots.len(),
{
    if slots.len() > 0 {
        let rest = slots.drop_last();
        lemma_present_count_bound(rest);
        if present_count(slots) == slots.len() {
            assert forall|i: int| 0 <= i < slots.len() implies #[trigger] slots[i] is Some by {
                if i < slots.len() - 1 {
                    assert(rest[i] == slots[i]);
                }
            }
        }
        if forall|i: int| 0 <= i < slots.len() ==> #[trigger] slots[i] is Some {
            assert forall|i: int| 0 <= i < rest.len() implies #[trigger] rest[i] is Some by {
                assert(rest[i] == slots[i]);
            }
            assert(slots[slots.len() - 1] is Some);
        }
    }
}

proof fn lemma_flatten_uniform_len(s: Seq<Seq<u8>>, size: nat)
    requires
        uniform_shards(s, size),
    ensures
        s.flatten_alt().len() == s.len() * size,
    decreases s.len(),
{
    if s.len() > 0 {
        let rest = s.drop_last();
        assert(uniform_shards(rest, size)) by {
            assert forall|i: int| 0 <= i < rest.len() implies (#[trigger] rest[i]).len() == size by {
                assert(rest[i] == s[i]);
            }
        }
        lemma_flatten_uniform_len(rest, size);
        assert(s.last().len() == size);
        vstd::arithmetic::mul::lemma_mul_is_distributive_add(size as int, rest.len() as int, 1);
        assert(s.len() * size == size * s.len()) by (nonlinear_arith);
        assert(rest.len() * size == size * rest.len()) by (nonlinear_arith);
    }
}

/// Fills every slot: through the erasure coder when there is parity; without
/// parity every slot must already hold a shard, all of one non-zero size.
fn rebuild_slots(k: usize, parity_count: usize, slots: &mut Vec<Option<Vec<u8>>>) -> (ok: bool)
    requires
        k > 0,
        old(slots)@.len() == k + parity_count,
        parity_count > 0 ==> erasure_params_ok(k as int, parity_count as int),
    ensures
        ok <==> rebuildable(slot_seqs(old(slots)@), k as nat),
        ok ==> final(slots)@.len() == old(slots)@.len(),
        ok ==> slot_seqs(final(slots)@) == all_present(
            rebuilt_from(slot_seqs(old(slots)@), k as nat),
        ),
        ok ==> agrees_with(slot_seqs(old(slots)@), rebuilt_from(slot_seqs(old(slots)@), k as nat)),
        ok ==> forall|i: int, j: int|
            0 <= i < old(slots)@.len() && 0 <= j < old(slots)@.len() && #[trigger] slot_seqs(
                old(slots)@,
            )[j] is Some ==> (#[trigger] rebuilt_from(slot_seqs(old(slots)@), k as nat)[i]).len()
                == slot_seqs(old(slots)@)[j]->0.len(),
        forall|word: Seq<Seq<u8>>|
            is_codeword(word, k as nat, parity_count as nat) && agrees_with(
                slot_seqs(old(slots)@),
                word,
            ) && present_count(slot_seqs(old(slots)@)) >= k ==> ok && rebuilt_from(
                slot_seqs(old(slots)@),
                k as nat,
            ) == word,
{
    let ghost before = slot_seqs(slots@);
    if parity_count > 0 {
        let res = erasure_reconstruct(k, parity_count, slots);
        return res.is_ok();
    }
    let n = slots.len();
    proof {
        lemma_present_count_bound(before);
    }
    let mut size: usize = 0;
    let mut i: usize = 0;
    while i < n
        invariant
            0 <= i <= n,
            n == slots@.len(),
            n == k,
            before == slot_seqs(slots@),
            before == slot_seqs(old(slots)@),
            present_count(before) <= before.len(),
            present_count(before) == before.len() <==> forall|j: int|
                0 <= j < before.len() ==> #[trigger] before[j] is Some,
            forall|j: int|
                0 <= j < i ==> (#[trigger] before[j]) is Some && before[j]->0.len() == size && size
                    > 0,
        decreases n - i,
    {
        match &slots[i] {
            None => {
                assert(before[i as int] is None);
                assert(present_count(before) < k);
                return false;
            },
            Some(data) => {
                assert(before[i as int] == Some(data@));
                if i == 0 {
                    size = data.len();
                }
                if data.len() == 0 || data.len() != size {
                    assert(!present_uniform(before)) by {
                        if data.len() != size {
                            assert(before[0] is Some);
                        }
                    }
                    return false;
                }
            },
        }
        i = i + 1;
    }
    proof {
        assert(present_uniform(before));
        assert(slot_seqs(slots@) =~= all_present(rebuilt_from(before, k as nat)));
        assert(agrees_with(before, rebuilt_from(before, k as nat)));
        assert forall|word: Seq<Seq<u8>>|
            is_codeword(word, k as nat, parity_count as nat) && agrees_with(before, word)
                && present_count(before) >= k implies rebuilt_from(before, k as nat) == word by {
            assert(rebuilt_from(before, k as nat) =~= word);
        }
    }
    true
}

// ---------------------------------------------------------------------------
// The storage engine
// ---------------------------------------------------------------------------

/// The standard operations for turning file content into shards and back.
pub trait StorageEngine {
    /// Shards the given file content into `n` total shards, requiring `k` to reconstruct.
    fn shard_file(&self, content: &[u8], k: usize, n: usize) -> Result<Vec<Shard>, ShardError>
        requires
            valid_layout(k as int, n as int) ==> content@.len() > 0,
    ;

    /// Reconstructs the original file content from a subset of shards.
    fn reconstruct_file(
        &self,
        shards: &[Option<Shard>],
        k: usize,
        n: usize,
        original_len: usize,
    ) -> Result<Vec<u8>, ShardError>
        requires
            shards@.len() == n ==> k <= n,
    ;
}

/// The decimal digits of `n`.
pub open spec fn decimal(n: nat) -> Seq<char>
    decreases n,
{
    if n < 10 {
        seq![(48 + n) as char]
    } else {
        decimal(n / 10).push((48 + n % 10) as char)
    }
}

/// Every character of a decimal is a digit, and there is at least one.
proof fn lemma_decimal_digits(n: nat)
    ensures
        decimal(n).len() >= 1,
        forall|j: int| 0 <= j < decimal(n).len() ==> 48 <= (#[trigger] decimal(n)[j]) as int <= 57,
    decreases n,
{
    if n >= 10 {
        lemma_decimal_digits(n / 10);
        let d = decimal(n / 10);
        assert forall|j: int| 0 <= j < decimal(n).len() implies 48 <= (#[trigger] decimal(n)[j]) as int
            <= 57 by {
            if j < d.len() {
                assert(decimal(n)[j] == d[j]);
            }
        }
    }
}

proof fn lemma_decimal_injective(a: nat, b: nat)
    requires
        decimal(a) == decimal(b),
    ensures
        a == b,
    decreases a,
{
    lemma_decimal_digits(a);
    lemma_decimal_digits(b);
    if a < 10 && b < 10 {
        assert(decimal(a)[0] == decimal(b)[0]);
    } else if a < 10 {
        lemma_decimal_digits(b / 10);
        assert(decimal(b).len() == decimal(b / 10).len() + 1);
    } else if b < 10 {
        lemma_decimal_digits(a / 10);
        assert(decimal(a).len() == decimal(a / 10).len() + 1);
    } else {
        assert(decimal(a).drop_last() =~= decimal(a / 10));
        assert(decimal(b).drop_last() =~= decimal(b / 10));
        lemma_decimal_injective(a / 10, b / 10);
        assert(decimal(a).last() == decimal(b).last());
        assert(decimal(a).last() == (48 + a % 10) as char);
        assert(decimal(b).last() == (48 + b % 10) as char);
        assert(decimal(a).last() as int == 48 + a % 10);
        assert(decimal(b).last() as int == 48 + b % 10);
        assert(a % 10 == b % 10);
    }
}

/// Law: distinct shards never share a file name. The name of shard `i1` of
/// file `f1` equals that of shard `i2` of file `f2` exactly when the file ids
/// and the indices are equal.
pub proof fn lemma_shard_file_names_distinct(f1: Seq<char>, i1: nat, f2: Seq<char>, i2: nat)
    ensures
        (f1 + ".shard."@ + decimal(i1) == f2 + ".shard."@ + decimal(i2)) <==> (f1 == f2 && i1
            == i2),
{
    reveal_strlit(".shard.");
    let dot = ".shard."@;
    let s1 = f1 + dot + decimal(i1);
    let s2 = f2 + dot + decimal(i2);
    if s1 == s2 {
        lemma_decimal_digits(i1);
        lemma_decimal_digits(i2);
        assert(dot.len() == 7);
        assert(dot[6] == '.');
        assert(s1.len() == s2.len());
        assert((f1 + dot).len() == f1.len() + 7);
        assert((f2 + dot).len() == f2.len() + 7);
        if f1.len() < f2.len() {
            let p: int = f2.len() as int + 6;
            assert(s2[p] == (f2 + dot)[p]);
            assert(s2[p] == '.');
            assert(s1[p] == decimal(i1)[p - f1.len() - 7]);
            assert(48 <= decimal(i1)[p - f1.len() - 7] as int);
            assert(false);
        }
        if f2.len() < f1.len() {
            let p: int = f1.len() as int + 6;
            assert(s1[p] == (f1 + dot)[p]);
            assert(s1[p] == '.');
            assert(s2[p] == decimal(i2)[p - f2.len() - 7]);
            assert(48 <= decimal(i2)[p - f2.len() - 7] as int);
            assert(false);
        }
        assert(f1 =~= s1.take(f1.len() as int));
        assert(f2 =~= s2.take(f2.len() as int));
        assert(decimal(i1) =~= s1.skip(f1.len() as int + 7));
        assert(decimal(i2) =~= s2.skip(f2.len() as int + 7));
        lemma_decimal_injective(i1, i2);
    }
}

/// Law: a file id without `/` gives a shard file name without `/`, so the
/// name stays a single path component inside the storage directory.
pub proof fn lemma_shard_file_name_is_one_component(f: Seq<char>, i: nat)
    requires
        !f.contains('/'),
    ensures
        !(f + ".shard."@ + decimal(i)).contains('/'),
{
    reveal_strlit(".shard.");
    lemma_decimal_digits(i);
    let s = f + ".shard."@ + decimal(i);
    assert forall|j: int| 0 <= j < s.len() implies s[j] != '/' by {
        if j < f.len() {
            assert(s[j] == f[j]);
        } else if j >= f.len() + 7 {
            assert(s[j] == decimal(i)[j - f.len() - 7]);
        }
    }
}

/// Calls `String::push`; as std documents, it appends `c`.
#[verifier::external_body]
fn push_char(s: &mut String, c: char)
    ensures
        final(s)@ == old(s)@.push(c),
{
    s.push(c)
}

fn push_decimal(s: &mut String, n: usize)
    ensures
        final(s)@ == old(s)@ + decimal(n as nat),
    decreases n,
{
    if n >= 10 {
        push_decimal(s, n / 10);
    }
    let digit = (n % 10) as u8;
    push_char(s, (48u8 + digit) as char);
    assert(final(s)@ =~= old(s)@ + decimal(n as nat));
}

/// The on-disk file name of shard `index` of file `file_id`:
/// `{file_id}.shard.{index}`.
pub fn shard_file_name(file_id: &str, index: usize) -> (name: String)
    ensures
        name@ == file_id@ + ".shard."@ + decimal(index as nat),
{
    let mut name = file_id.to_owned();
    name.append(".shard.");
    push_decimal(&mut name, index);
    name
}

/// Keeps a shard read back from disk only when it still matches its
/// checksum: a shard that does not is treated as lost (bit rot).
pub fn accept_loaded_shard(shard: Shard) -> (res: Option<Shard>)
    ensures
        res == if shard.is_intact() {
            Some(shard)
        } else {
            None::<Shard>
        },
{
    if shard.verify() {
        Some(shard)
    } else {
        None
    }
}

/// A storage engine rooted at a directory on the local disk.
pub struct LocalStorageEngine {
    pub base_dir: String,
}

impl LocalStorageEngine {
    /// An engine rooted at `base_dir` (which the caller has created).
    pub fn new(base_dir: &str) -> (engine: LocalStorageEngine)
        ensures
            engine.base_dir@ == base_dir@,
    {
        LocalStorageEngine { base_dir: base_dir.to_owned() }
    }
}

impl StorageEngine for LocalStorageEngine {
    fn shard_file(&self, content: &[u8], k: usize, n: usize) -> (res: Result<Vec<Shard>, ShardError>)
        ensures
            res is Ok <==> valid_layout(k as int, n as int),
            (k == 0 || n == 0 || k > n) ==> res == Err::<Vec<Shard>, ShardError>(
                ShardError::InvalidShardParameters,
            ),
            !(k == 0 || n == 0 || k > n) && !valid_layout(k as int, n as int) ==> res == Err::<
                Vec<Shard>,
                ShardError,
            >(ShardError::ErasureCoderInit),
            res matches Ok(shards) ==> is_sharding_of(shards@, content@, k as nat, n as nat),
    {
        if k == 0 || n == 0 || k > n {
            return Err(ShardError::InvalidShardParameters);
        }
        let parity_count = n - k;
        if parity_count > 0 && erasure_coder_check(k, parity_count).is_err() {
            return Err(ShardError::ErasureCoderInit);
        }
        proof {
            lemma_padding(content@.len(), k as nat);
        }
        // Pad the content to a multiple of k.
        let mut padded_content: Vec<u8> = vstd::slice::slice_to_vec(content);
        let rem = content.len() % k;
        if rem != 0 {
            let pad = k - rem;
            let mut j: usize = 0;
            while j < pad
                invariant
                    0 <= j <= pad,
                    pad == k - rem,
                    padded_content@.len() == content@.len() + j,
                    padded_content@ =~= content@ + Seq::new(j as nat, |i: int| 0u8),
                decreases pad - j,
            {
                padded_content.push(0u8);
                j = j + 1;
            }
        }
        assert(padded_content@ =~= padded(content@, k as nat));
        let shard_size = padded_content.len() / k;
        let ghost s = shard_len(content@.len(), k as nat);
        assert(shard_size == s);
        assert(k * s <= usize::MAX);
        // Cut the padded content into k data shards.
        let mut shards: Vec<Vec<u8>> = Vec::new();
        let mut i: usize = 0;
        while i < k
            invariant
                0 <= i <= k,
                k > 0,
                shard_size == s,
                s == shard_len(content@.len(), k as nat),
                s > 0,
                padded_content@ == padded(content@, k as nat),
                padded_content@.len() == k * s,
                k * s <= usize::MAX,
                shards@.len() == i,
                forall|j: int|
                    0 <= j < i ==> (#[trigger] shards@[j])@ == data_shards(content@, k as nat)[j],
            decreases k - i,
        {
            proof {
                lemma_chunk_bounds(i as int, k as int, s as int);
            }
            let start = i * shard_size;
            let mut chunk: Vec<u8> = Vec::new();
            let mut j: usize = 0;
            while j < shard_size
                invariant
                    0 <= j <= shard_size,
                    shard_size == s,
                    start == i * s,
                    start + s <= padded_content@.len(),
                    padded_content@.len() <= usize::MAX,
                    chunk@ =~= padded_content@.subrange(start as int, start + j),
                decreases shard_size - j,
            {
                chunk.push(padded_content[start + j]);
                j = j + 1;
            }
            assert(chunk@ =~= padded_content@.subrange(i * s, (i + 1) * s));
            proof {
                lemma_data_shard_at(content@, k as nat, i as int);
            }
            assert(chunk@ =~= data_shards(content@, k as nat)[i as int]);
            shards.push(chunk);
            i = i + 1;
        }
        // Allocate empty parity shards.
        let mut p: usize = 0;
        while p < parity_count
            invariant
                0 <= p <= parity_count,
                parity_count == n - k,
                shard_size == s,
                shards@.len() == k + p,
                forall|j: int|
                    0 <= j < k ==> (#[trigger] shards@[j])@ == data_shards(content@, k as nat)[j],
                forall|j: int| k <= j < k + p ==> (#[trigger] shards@[j])@.len() == s,
            decreases parity_count - p,
        {
            let zeros: Vec<u8> = vec![0u8; shard_size];
            assert(zeros@.len() == s);
            shards.push(zeros);
            p = p + 1;
        }
        proof {
            lemma_data_shards_join(content@, k as nat);
            assert(byte_seqs(shards@).take(k as int) =~= data_shards(content@, k as nat));
            assert(uniform_shards(byte_seqs(shards@), s));
        }
        let ghost before = byte_seqs(shards@);
        let ghost word = encoded_shards(content@, k as nat, n as nat);
        if parity_count > 0 {
            if erasure_encode(k, parity_count, &mut shards).is_err() {
                return Err(ShardError::ErasureEncodingFailed);
            }
            assert(byte_seqs(shards@) =~= word);
            assert(uniform_shards(word, s));
        } else {
            assert(before =~= data_shards(content@, k as nat));
            assert(byte_seqs(shards@) =~= word);
        }
        assert(word.take(k as int) =~= data_shards(content@, k as nat));
        assert(word.skip(k as int) =~= parity_of(data_shards(content@, k as nat), (n - k) as nat));
        assert(before[0] == data_shards(content@, k as nat)[0]);
        assert(before[0].len() == s);
        assert(uniform_shards(word, s));
        assert(word[0].len() == s);
        assert(word.len() == k + (n - k));
        assert(is_codeword(word, k as nat, (n - k) as nat));
        // Checksum every shard.
        let mut final_shards: Vec<Shard> = Vec::new();
        let mut i: usize = 0;
        while i < n
            invariant
                0 <= i <= n,
                byte_seqs(shards@) == word,
                shards@.len() == n,
                final_shards@.len() == i,
                forall|j: int|
                    0 <= j < i ==> {
                        &&& (#[trigger] final_shards@[j]).index == j
                        &&& final_shards@[j].data@ == word[j]
                        &&& final_shards@[j].is_intact()
                    },
            decreases n - i,
        {
            let data = vstd::slice::slice_to_vec(shards[i].as_slice());
            assert(data@ == word[i as int]);
            final_shards.push(Shard::new(i, data));
            i = i + 1;
        }
        Ok(final_shards)
    }

    fn reconstruct_file(
        &self,
        shards: &[Option<Shard>],
        k: usize,
        n: usize,
        original_len: usize,
    ) -> (res: Result<Vec<u8>, ShardError>)
        ensures
            bytes_result(res) == reconstructed(shards@, k, n, original_len),
            res matches Ok(bytes) ==> bytes@.len() == if original_len <= k * first_present_len(
                slot_data(shards@),
            ) {
                original_len as int
            } else {
                k * first_present_len(slot_data(shards@))
            },
            res matches Ok(bytes) ==> (forall|i: int| 0 <= i < k ==> shards@[i] is Some) ==> bytes@
                == truncated(present_data_joined(shards@, k as nat), original_len as nat),
            forall|content: Seq<u8>|
                holds_encoding_of(shards@, content, k as nat, n as nat) && content.len()
                    == original_len ==> (res matches Ok(bytes) && bytes@ == content),
    {
        proof {
            assert forall|c: Seq<u8>| holds_encoding_of(shards@, c, k as nat, n as nat) implies slots_checked(
                shards@,
                k as nat,
                n as nat,
            ) && rebuildable(slot_data(shards@), k as nat) by {
                lemma_encoding_passes_checks(shards@, c, k as nat, n as nat);
            }
        }
        if shards.len() != n {
            return Err(ShardError::ShardCountMismatch(n));
        }
        let parity_count = n - k;
        if k == 0 || (parity_count > 0 && erasure_coder_check(k, parity_count).is_err()) {
            return Err(ShardError::ErasureCoderInit);
        }
        // Determine the shard size from the first present shard.
        let mut first: usize = 0;
        while first < n && shards[first].is_none()
            invariant
                0 <= first <= n,
                n == shards@.len(),
                forall|j: int| 0 <= j < first ==> shards@[j] is None,
            decreases n - first,
        {
            first = first + 1;
        }
        let shard_size: usize = if first < n {
            match &shards[first] {
                Some(shard) => shard.data.len(),
                None => 0,
            }
        } else {
            0
        };
        proof {
            lemma_first_present_from(slot_data(shards@), first as int);
        }
        assert(shard_size == first_present_len(slot_data(shards@)));
        if shard_size == 0 {
            return Err(ShardError::NoValidShards);
        }
        // Prepare the slots for reconstruction, checking every present shard.
        let mut slots: Vec<Option<Vec<u8>>> = Vec::new();
        let mut i: usize = 0;
        while i < n
            invariant
                0 <= i <= n,
                n == shards@.len(),
                slots@.len() == i,
                valid_layout(k as int, n as int),
                first_present_len(slot_data(shards@)) > 0,
                slot_seqs(slots@) =~= slot_data(shards@).take(i as int),
                forall|j: int| 0 <= j < i ==> !is_unintact(shards@[j]),
                forall|c: Seq<u8>|
                    holds_encoding_of(shards@, c, k as nat, n as nat) ==> slots_checked(
                        shards@,
                        k as nat,
                        n as nat,
                    ),
            decreases n - i,
        {
            match &shards[i] {
                Some(shard) => {
                    if !shard.verify() {
                        assert(first_unintact_at(shards@, i as int));
                        proof {
                            lemma_first_unintact_unique(shards@, i as int);
                        }
                        return Err(ShardError::ShardChecksumFailed(i));
                    }
                    slots.push(Some(vstd::slice::slice_to_vec(shard.data.as_slice())));
                },
                None => {
                    slots.push(None);
                },
            }
            i = i + 1;
        }
        assert(slot_seqs(slots@) =~= slot_data(shards@));
        assert(slots_checked(shards@, k as nat, n as nat));
        assert(!exists|j: int| first_unintact_at(shards@, j));
        let ghost before = slot_seqs(slots@);
        if !rebuild_slots(k, parity_count, &mut slots) {
            return Err(ShardError::ErasureReconstructionFailed);
        }
        let ghost rebuilt = rebuilt_from(before, k as nat);
        assert(slot_seqs(slots@).len() == n);
        assert(all_present(rebuilt).len() == rebuilt.len());
        assert(rebuilt.len() == n);
        // Reassemble the data from the data shards (the first k shards).
        let mut joined: Vec<u8> = Vec::new();
        let mut i: usize = 0;
        while i < k
            invariant
                0 <= i <= k,
                k <= n,
                slot_seqs(slots@) == all_present(rebuilt),
                slots@.len() == n,
                rebuilt.len() == n,
                joined@ =~= rebuilt.take(i as int).flatten_alt(),
            decreases k - i,
        {
            match &slots[i] {
                Some(data) => {
                    let ghost prev = joined@;
                    let mut j: usize = 0;
                    while j < data.len()
                        invariant
                            0 <= j <= data@.len(),
                            joined@ =~= prev + data@.subrange(0, j as int),
                        decreases data@.len() - j,
                    {
                        joined.push(data[j]);
                        j = j + 1;
                    }
                    assert(slot_seqs(slots@)[i as int] == Some(data@));
                    assert(all_present(rebuilt)[i as int] == Some(rebuilt[i as int]));
                    assert(data@ == rebuilt[i as int]);
                    assert(rebuilt.take(i + 1).drop_last() =~= rebuilt.take(i as int));
                },
                None => {
                    return Err(ShardError::DataShardMissing(i));
                },
            }
            i = i + 1;
        }
        let ghost full = joined@;
        joined.truncate(original_len);
        proof {
            let size = first_present_len(slot_data(shards@));
            assert(before[first as int] is Some);
            assert(uniform_shards(rebuilt.take(k as int), size)) by {
                assert forall|i: int| 0 <= i < k implies (#[trigger] rebuilt.take(k as int)[i]).len()
                    == size by {
                    assert(rebuilt[i].len() == before[first as int]->0.len());
                }
            }
            lemma_flatten_uniform_len(rebuilt.take(k as int), size);
            if forall|i: int| 0 <= i < k ==> shards@[i] is Some {
                assert(rebuilt.take(k as int) =~= Seq::new(k as nat, |i: int| shards@[i]->0.data@))
                    by {
                    assert forall|i: int| 0 <= i < k implies rebuilt.take(k as int)[i] == shards@[i]->0.data@ by {
                        assert(before[i] is Some);
                    }
                }
            }
            assert forall|c: Seq<u8>|
                holds_encoding_of(shards@, c, k as nat, n as nat) && c.len()
                    == original_len implies joined@ == c by {
                lemma_encoding_passes_checks(shards@, c, k as nat, n as nat);
                let word = encoded_shards(c, k as nat, n as nat);
                assert(rebuilt == word);
                lemma_data_shards_join(c, k as nat);
                lemma_padding(c.len(), k as nat);
                assert(word.take(k as int) =~= data_shards(c, k as nat));
                assert(padded(c, k as nat).take(c.len() as int) =~= c);
            }
        }
        Ok(joined)
    }
}

} // verus!
