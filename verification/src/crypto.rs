use vstd::prelude::*;

use crate::error::ShardError;
use crate::storage::{byte_seqs, bytes_result};
use aes_gcm::aead::{Aead, KeyInit};
use aes_gcm::{Aes256Gcm, Nonce};
use bip39::Mnemonic;
use hkdf::Hkdf;
use libp2p::identity::{ed25519 as p2p_ed25519, Keypair as P2pKeypair, PeerId};
use rand::rngs::OsRng;
use rand::RngCore;
use sha2::Sha256;
use sharks::{Share, Sharks};

verus! {

// ---------------------------------------------------------------------------
// Outside errors
// ---------------------------------------------------------------------------

#[verifier::external_type_specification]
#[verifier::external_body]
pub struct ExAeadError(aes_gcm::Error);

#[verifier::external_type_specification]
#[verifier::external_body]
pub struct ExHkdfLength(hkdf::InvalidLength);

#[verifier::external_type_specification]
#[verifier::external_body]
pub struct ExMnemonicError(bip39::Error);

#[verifier::external_type_specification]
#[verifier::external_body]
pub struct ExDecodingError(libp2p::identity::DecodingError);

// ---------------------------------------------------------------------------
// Randomness (rand)
// ---------------------------------------------------------------------------

/// Calls `rand::rngs::OsRng::fill_bytes` on `N` bytes. Nothing is claimed of
/// the bytes: they come from the operating system's random source.
#[verifier::external_body]
fn random_bytes<const N: usize>() -> [u8; N] {
    let mut bytes = [0u8; N];
    OsRng.fill_bytes(&mut bytes);
    bytes
}

// ---------------------------------------------------------------------------
// AES-256-GCM (aes-gcm)
// ---------------------------------------------------------------------------

/// The largest plaintext, in bytes, that AES-GCM encrypts.
pub open spec fn aes_gcm_max_plaintext() -> int {
    0x10_0000_0000
}

/// The ciphertext (authentication tag appended) that AES-256-GCM gives for
/// `plaintext` under `key` and `nonce`, with no associated data.
pub uninterp spec fn aes256gcm_seal(key: Seq<u8>, nonce: Seq<u8>, plaintext: Seq<u8>) -> Seq<u8>;

/// The plaintext that AES-256-GCM recovers from `ciphertext` under `key` and
/// `nonce`, or `None` when authentication fails.
pub uninterp spec fn aes256gcm_open(key: Seq<u8>, nonce: Seq<u8>, ciphertext: Seq<u8>) -> Option<
    Seq<u8>,
>;

/// Calls `Aes256Gcm::new` and `Aead::encrypt` with a 12-byte nonce. Claimed,
/// as the source shows: it fails exactly on plaintexts over 2^36 bytes; the
/// ciphertext is `aes256gcm_seal`, 16 bytes longer than the plaintext (the
/// tag), and, as authenticated encryption promises, opens to the plaintext.
#[verifier::external_body]
fn aes_gcm_seal(key: &[u8; 32], nonce: &[u8], plaintext: &[u8]) -> (res: Result<
    Vec<u8>,
    aes_gcm::Error,
>)
    requires
        nonce@.len() == 12,
    ensures
        res is Ok <==> plaintext@.len() <= aes_gcm_max_plaintext(),
        res matches Ok(c) ==> c@ == aes256gcm_seal(key@, nonce@, plaintext@),
        res matches Ok(c) ==> c@.len() == plaintext@.len() + 16,
        res matches Ok(c) ==> aes256gcm_open(key@, nonce@, c@) == Some(plaintext@),
{
    Aes256Gcm::new(key.into()).encrypt(Nonce::from_slice(nonce), plaintext)
}

/// Calls `Aes256Gcm::new` and `Aead::decrypt` with a 12-byte nonce. Claimed:
/// it succeeds exactly when `aes256gcm_open` does, with that plaintext.
#[verifier::external_body]
fn aes_gcm_open(key: &[u8; 32], nonce: &[u8], ciphertext: &[u8]) -> (res: Result<
    Vec<u8>,
    aes_gcm::Error,
>)
    requires
        nonce@.len() == 12,
    ensures
        res is Ok <==> aes256gcm_open(key@, nonce@, ciphertext@) is Some,
        res matches Ok(p) ==> Some(p@) == aes256gcm_open(key@, nonce@, ciphertext@),
{
    Aes256Gcm::new(key.into()).decrypt(Nonce::from_slice(nonce), ciphertext)
}

// ---------------------------------------------------------------------------
// HKDF-SHA256 (hkdf, sha2)
// ---------------------------------------------------------------------------

/// The 32 bytes that HKDF-SHA256 expands from `ikm` (no salt) with `info`.
pub uninterp spec fn hkdf_sha256(ikm: Seq<u8>, info: Seq<u8>) -> Seq<u8>;

/// Calls `Hkdf::<Sha256>::new(None, ikm)` and `Hkdf::expand` into 32 bytes.
/// Claimed, as the source shows (expand fails only above 255 * 32 bytes): it
/// succeeds, with the bytes named `hkdf_sha256`.
#[verifier::external_body]
fn hkdf_expand_32(ikm: &[u8], info: &[u8]) -> (res: Result<[u8; 32], hkdf::InvalidLength>)
    ensures
        res is Ok,
        res matches Ok(okm) ==> okm@ == hkdf_sha256(ikm@, info@),
{
    let mut okm = [0u8; 32];
    match Hkdf::<Sha256>::new(None, ikm).expand(info, &mut okm) {
        Ok(()) => Ok(okm),
        Err(e) => Err(e),
    }
}

// ---------------------------------------------------------------------------
// BIP-39 (bip39)
// ---------------------------------------------------------------------------

/// The English BIP-39 phrase (words joined by single spaces) of `entropy`.
pub uninterp spec fn bip39_phrase(entropy: Seq<u8>) -> Seq<char>;

/// The 64-byte seed (empty passphrase) of `phrase`, or `None` when `phrase`
/// is not a valid mnemonic.
pub uninterp spec fn bip39_seed(phrase: Seq<char>) -> Option<Seq<u8>>;

/// `phrase` is `words` non-empty words of lowercase ASCII letters, joined by
/// single spaces.
pub open spec fn is_phrase_of_words(phrase: Seq<char>, words: nat) -> bool {
    &&& phrase.len() > 0
    &&& phrase[0] != ' '
    &&& phrase.last() != ' '
    &&& forall|i: int|
        0 <= i < phrase.len() ==> (#[trigger] phrase[i] == ' ' || ('a' <= phrase[i] && phrase[i]
            <= 'z'))
    &&& forall|i: int| 0 <= i < phrase.len() - 1 && #[trigger] phrase[i] == ' ' ==> phrase[i + 1] != ' '
    &&& phrase.filter(|c: char| c == ' ').len() + 1 == words
}

/// Entropy lengths that BIP-39 accepts: 128 to 256 bits, a multiple of 32.
pub open spec fn valid_entropy_len(len: nat) -> bool {
    len % 4 == 0 && 16 <= len <= 32
}

/// Calls `Mnemonic::from_entropy` and formats the mnemonic. Claimed, as the
/// source shows: it succeeds exactly on the entropy lengths of
/// `valid_entropy_len`; the phrase is three words per four bytes of entropy,
/// English words joined by single spaces; and `Mnemonic::parse` accepts it
/// again.
#[verifier::external_body]
fn bip39_from_entropy(entropy: &[u8]) -> (res: Result<String, bip39::Error>)
    ensures
        res is Ok <==> valid_entropy_len(entropy@.len()),
        res matches Ok(phrase) ==> phrase@ == bip39_phrase(entropy@),
        res matches Ok(phrase) ==> is_phrase_of_words(phrase@, entropy@.len() * 3 / 4),
        res matches Ok(phrase) ==> bip39_seed(phrase@) is Some,
{
    match Mnemonic::from_entropy(entropy) {
        Ok(m) => Ok(m.to_string()),
        Err(e) => Err(e),
    }
}

/// Calls `Mnemonic::parse` and `Mnemonic::to_seed("")`. Claimed: it succeeds
/// exactly when `bip39_seed` is defined, with that seed.
#[verifier::external_body]
fn bip39_to_seed(phrase: &str) -> (res: Result<[u8; 64], bip39::Error>)
    ensures
        res is Ok <==> bip39_seed(phrase@) is Some,
        res matches Ok(seed) ==> Some(seed@) == bip39_seed(phrase@),
{
    match Mnemonic::parse(phrase) {
        Ok(m) => Ok(m.to_seed("")),
        Err(e) => Err(e),
    }
}

// ---------------------------------------------------------------------------
// libp2p Ed25519 identity (libp2p)
// ---------------------------------------------------------------------------

/// The text form of the peer id of the Ed25519 keypair with secret `secret`.
pub uninterp spec fn peer_id_text(secret: Seq<u8>) -> Seq<char>;

/// Calls `ed25519::SecretKey::try_from_bytes`, builds the keypair and its
/// `PeerId`, and formats it. Claimed, as the source shows (any 32 bytes are a
/// secret key): it succeeds, with the text named `peer_id_text`.
#[verifier::external_body]
fn ed25519_peer_id(secret: &[u8; 32]) -> (res: Result<String, libp2p::identity::DecodingError>)
    ensures
        res is Ok,
        res matches Ok(text) ==> text@ == peer_id_text(secret@),
{
    let mut bytes = *secret;
    match p2p_ed25519::SecretKey::try_from_bytes(&mut bytes) {
        Ok(sk) => Ok(PeerId::from(P2pKeypair::from(p2p_ed25519::Keypair::from(sk)).public()).to_string()),
        Err(e) => Err(e),
    }
}

// ---------------------------------------------------------------------------
// Shamir's secret sharing (sharks)
// ---------------------------------------------------------------------------

/// The secret that `Sharks::recover` interpolates from `shares` (each share
/// being its x coordinate followed by one y byte per secret byte).
pub uninterp spec fn shamir_interpolate(shares: Seq<Seq<u8>>) -> Seq<u8>;

/// Distinct positions, each below `count`.
pub open spec fn valid_selection(sel: Seq<int>, count: nat) -> bool {
    &&& sel.no_duplicates()
    &&& forall|i: int| 0 <= i < sel.len() ==> 0 <= #[trigger] sel[i] < count
}

/// The shares at the positions of `sel`, in that order.
pub open spec fn select(shares: Seq<Seq<u8>>, sel: Seq<int>) -> Seq<Seq<u8>> {
    sel.map_values(|j: int| shares[j])
}

/// The x coordinates (first bytes) of `shares`.
pub open spec fn share_points(shares: Seq<Seq<u8>>) -> Set<u8> {
    shares.map_values(|s: Seq<u8>| s[0]).to_set()
}

/// All shares have the same length.
pub open spec fn same_length(shares: Seq<Seq<u8>>) -> bool {
    forall|i: int, j: int|
        0 <= i < shares.len() && 0 <= j < shares.len() ==> (#[trigger] shares[i]).len() == (
        #[trigger] shares[j]).len()
}

/// Calls `Sharks::dealer`, takes `count` shares and encodes each as bytes.
/// Claimed, as the source shows: share `i` is `i + 1` followed by one byte per
/// secret byte; and, as Shamir's scheme promises, any `threshold` (and at
/// least one) distinct shares interpolate to the secret. Also claimed: for a
/// threshold of at least 2, any `threshold - 1` distinct shares interpolate
/// to a value that differs from the secret in every byte. The source draws
/// each non-constant coefficient from `1..=255` (`math::random_polynomial`),
/// so each byte's polynomial has degree exactly `threshold - 1`; the
/// interpolant through `threshold - 1` of its points at non-zero x differs
/// from it, and the difference has no further root, in particular not at 0.
/// The y bytes are random and nothing more is claimed of them.
#[verifier::external_body]
fn sharks_deal(threshold: u8, secret: &[u8], count: u8) -> (shares: Vec<Vec<u8>>)
    ensures
        shares@.len() == count,
        forall|i: int|
            0 <= i < count ==> (#[trigger] shares@[i])@.len() == secret@.len() + 1
                && shares@[i]@[0] == i + 1,
        forall|sel: Seq<int>|
            valid_selection(sel, count as nat) && sel.len() >= threshold && sel.len() >= 1
                ==> #[trigger] shamir_interpolate(select(byte_seqs(shares@), sel)) == secret@,
        threshold >= 2 ==> forall|sel: Seq<int>, b: int|
            valid_selection(sel, count as nat) && sel.len() == threshold - 1 && 0 <= b
                < secret@.len() ==> #[trigger] shamir_interpolate(select(byte_seqs(shares@), sel))[b]
                != secret@[b],
{
    Sharks(threshold).dealer(secret).take(count as usize).map(|s| Vec::from(&s)).collect()
}

/// Decodes each share (`Share::try_from`) and calls `Sharks::recover`.
/// Claimed, as the source shows: it succeeds exactly when the shares have one
/// length and hold at least `threshold` (and at least one) distinct x
/// coordinates, with the secret named `shamir_interpolate`.
#[verifier::external_body]
fn sharks_recover(threshold: u8, shares: &[Vec<u8>]) -> (res: Result<Vec<u8>, String>)
    requires
        forall|i: int| 0 <= i < shares@.len() ==> (#[trigger] shares@[i])@.len() >= 2,
    ensures
        res is Ok <==> (same_length(byte_seqs(shares@)) && share_points(byte_seqs(shares@)).len()
            >= 1 && share_points(byte_seqs(shares@)).len() >= threshold),
        res matches Ok(secret) ==> secret@ == shamir_interpolate(byte_seqs(shares@)),
{
    match shares.iter().map(|s| Share::try_from(s.as_slice())).collect::<Result<Vec<Share>, _>>() {
        Ok(decoded) => Sharks(threshold).recover(&decoded).map_err(|e| e.to_string()),
        Err(e) => Err(e.to_string()),
    }
}


// ---------------------------------------------------------------------------
// Mnemonics and identities
// ---------------------------------------------------------------------------

/// Turns 32 bytes of entropy into a 24-word BIP-39 mnemonic phrase.
pub fn mnemonic_from_entropy(entropy: &[u8; 32]) -> (res: Result<String, ShardError>)
    ensures
        res is Ok,
        res matches Ok(phrase) ==> phrase@ == bip39_phrase(entropy@),
        res matches Ok(phrase) ==> is_phrase_of_words(phrase@, 24),
        res matches Ok(phrase) ==> bip39_seed(phrase@) is Some,
{
    match bip39_from_entropy(entropy) {
        Ok(phrase) => Ok(phrase),
        Err(_) => Err(ShardError::InvalidEntropy),
    }
}

/// Generates a new 24-word BIP-39 mnemonic seed from 256 random bits.
pub fn generate_mnemonic() -> (res: Result<String, ShardError>)
    ensures
        res is Ok,
        res matches Ok(phrase) ==> exists|entropy: Seq<u8>|
            entropy.len() == 32 && phrase@ == #[trigger] bip39_phrase(entropy),
        res matches Ok(phrase) ==> is_phrase_of_words(phrase@, 24),
        res matches Ok(phrase) ==> bip39_seed(phrase@) is Some,
{
    let entropy: [u8; 32] = random_bytes();
    mnemonic_from_entropy(&entropy)
}

/// The HKDF `info` label of the libp2p identity key.
pub open spec fn identity_label() -> Seq<u8> {
    vstd::utf8::encode_utf8("shardnet-identity"@)
}

/// The HKDF `info` label of the symmetric master key.
pub open spec fn master_key_label() -> Seq<u8> {
    vstd::utf8::encode_utf8("shardnet-master-key"@)
}

/// Keys derived deterministically from a mnemonic: the libp2p Ed25519 secret
/// key with its peer id, and the symmetric master key.
pub struct Identity {
    pub peer_id: String,
    pub p2p_secret: [u8; 32],
    pub master_key: [u8; 32],
}

impl Identity {
    /// The identity derived from the BIP-39 seed `seed`.
    pub open spec fn derived_from_seed(&self, seed: Seq<u8>) -> bool {
        &&& self.p2p_secret@ == hkdf_sha256(seed, identity_label())
        &&& self.master_key@ == hkdf_sha256(seed, master_key_label())
        &&& self.peer_id@ == peer_id_text(self.p2p_secret@)
    }

    /// Derives the identity from a mnemonic phrase: the BIP-39 seed (empty
    /// passphrase), expanded with HKDF-SHA256 into the Ed25519 secret and,
    /// under a second label, the master key.
    pub fn from_mnemonic(phrase: &str) -> (res: Result<Identity, ShardError>)
        ensures
            res is Ok <==> bip39_seed(phrase@) is Some,
            res is Err ==> res == Err::<Identity, ShardError>(ShardError::InvalidMnemonic),
            res matches Ok(id) ==> id.derived_from_seed(bip39_seed(phrase@)->0),
    {
        let seed = match bip39_to_seed(phrase) {
            Ok(seed) => seed,
            Err(_) => {
                return Err(ShardError::InvalidMnemonic);
            },
        };
        let identity_info = "shardnet-identity".as_bytes();
        let p2p_secret = match hkdf_expand_32(seed.as_slice(), identity_info) {
            Ok(okm) => okm,
            Err(_) => {
                return Err(ShardError::KeyDerivationFailed);
            },
        };
        let peer_id = match ed25519_peer_id(&p2p_secret) {
            Ok(text) => text,
            Err(_) => {
                return Err(ShardError::InvalidIdentityKey);
            },
        };
        let master_info = "shardnet-master-key".as_bytes();
        let master_key = match hkdf_expand_32(seed.as_slice(), master_info) {
            Ok(okm) => okm,
            Err(_) => {
                return Err(ShardError::KeyDerivationFailed);
            },
        };
        Ok(Identity { peer_id, p2p_secret, master_key })
    }
}

/// Law: the identity is a function of the phrase alone. Two identities derived
/// from the same phrase have the same peer id, Ed25519 secret and master key.
pub proof fn lemma_identity_is_deterministic(id1: Identity, id2: Identity, phrase: Seq<char>)
    requires
        bip39_seed(phrase) is Some,
        id1.derived_from_seed(bip39_seed(phrase)->0),
        id2.derived_from_seed(bip39_seed(phrase)->0),
    ensures
        id1.peer_id@ == id2.peer_id@,
        id1.p2p_secret@ == id2.p2p_secret@,
        id1.master_key@ == id2.master_key@,
{
}

// ---------------------------------------------------------------------------
// Authenticated encryption
// ---------------------------------------------------------------------------

/// Bytes of the nonce that starts every encrypted message.
pub const NONCE_LEN: usize = 12;

/// What decrypting `data` under `key` gives: the first 12 bytes are the
/// nonce, the rest the AES-256-GCM ciphertext.
pub open spec fn decrypted(key: Seq<u8>, data: Seq<u8>) -> Result<Seq<u8>, ShardError> {
    if data.len() < NONCE_LEN {
        Err(ShardError::EncryptedDataTooShort)
    } else {
        match aes256gcm_open(key, data.take(NONCE_LEN as int), data.skip(NONCE_LEN as int)) {
            Some(plaintext) => Ok(plaintext),
            None => Err(ShardError::DecryptionFailed),
        }
    }
}

/// AES-256-GCM encryption with a 12-byte nonce prepended to the ciphertext.
pub struct Cipher;

impl Cipher {
    /// Encrypts `plaintext` under `key` with the given nonce: the result is
    /// the nonce followed by the ciphertext.
    pub fn encrypt_with_nonce(key: &[u8; 32], nonce: &[u8; 12], plaintext: &[u8]) -> (res: Result<
        Vec<u8>,
        ShardError,
    >)
        ensures
            res is Ok <==> plaintext@.len() <= aes_gcm_max_plaintext(),
            res is Err ==> res == Err::<Vec<u8>, ShardError>(ShardError::EncryptionFailed),
            res matches Ok(data) ==> data@ == nonce@ + aes256gcm_seal(key@, nonce@, plaintext@),
            res matches Ok(data) ==> data@.len() == NONCE_LEN + plaintext@.len() + 16,
            res matches Ok(data) ==> decrypted(key@, data@) == Ok::<Seq<u8>, ShardError>(
                plaintext@,
            ),
    {
        let ciphertext = match aes_gcm_seal(key, nonce.as_slice(), plaintext) {
            Ok(c) => c,
            Err(_) => {
                return Err(ShardError::EncryptionFailed);
            },
        };
        let mut result: Vec<u8> = Vec::new();
        result.extend_from_slice(nonce.as_slice());
        result.extend_from_slice(ciphertext.as_slice());
        proof {
            assert(result@ =~= nonce@ + ciphertext@);
            assert(result@.take(NONCE_LEN as int) =~= nonce@);
            assert(result@.skip(NONCE_LEN as int) =~= ciphertext@);
        }
        Ok(result)
    }

    /// Encrypts data using a 32-byte key. A random 12-byte nonce is prepended
    /// to the ciphertext.
    pub fn encrypt(key: &[u8; 32], plaintext: &[u8]) -> (res: Result<Vec<u8>, ShardError>)
        ensures
            res is Ok <==> plaintext@.len() <= aes_gcm_max_plaintext(),
            res is Err ==> res == Err::<Vec<u8>, ShardError>(ShardError::EncryptionFailed),
            res matches Ok(data) ==> data@.len() == NONCE_LEN + plaintext@.len() + 16,
            res matches Ok(data) ==> data@.skip(NONCE_LEN as int) == aes256gcm_seal(
                key@,
                data@.take(NONCE_LEN as int),
                plaintext@,
            ),
            res matches Ok(data) ==> decrypted(key@, data@) == Ok::<Seq<u8>, ShardError>(
                plaintext@,
            ),
    {
        let nonce: [u8; 12] = random_bytes();
        let res = Cipher::encrypt_with_nonce(key, &nonce, plaintext);
        proof {
            if let Ok(data) = &res {
                assert(data@.take(NONCE_LEN as int) =~= nonce@);
                assert(data@.skip(NONCE_LEN as int) =~= aes256gcm_seal(key@, nonce@, plaintext@));
            }
        }
        res
    }

    /// Decrypts data using a 32-byte key. Expects a 12-byte nonce prepended
    /// to the ciphertext.
    pub fn decrypt(key: &[u8; 32], encrypted_data: &[u8]) -> (res: Result<Vec<u8>, ShardError>)
        ensures
            bytes_result(res) == decrypted(key@, encrypted_data@),
    {
        if encrypted_data.len() < NONCE_LEN {
            return Err(ShardError::EncryptedDataTooShort);
        }
        let nonce = vstd::slice::slice_subrange(encrypted_data, 0, NONCE_LEN);
        let ciphertext = vstd::slice::slice_subrange(encrypted_data, NONCE_LEN, encrypted_data.len());
        assert(nonce@ =~= encrypted_data@.take(NONCE_LEN as int));
        assert(ciphertext@ =~= encrypted_data@.skip(NONCE_LEN as int));
        match aes_gcm_open(key, nonce, ciphertext) {
            Ok(plaintext) => Ok(plaintext),
            Err(_) => Err(ShardError::DecryptionFailed),
        }
    }
}

// ---------------------------------------------------------------------------
// Key wrapping
// ---------------------------------------------------------------------------

/// The length of a wrapped file key: nonce, 32 encrypted bytes and tag.
pub const WRAPPED_KEY_LEN: usize = 60;

/// What unwrapping `wrapped` under `master_key` gives.
pub open spec fn unwrapped(master_key: Seq<u8>, wrapped: Seq<u8>) -> Result<Seq<u8>, ShardError> {
    match decrypted(master_key, wrapped) {
        Err(e) => Err(e),
        Ok(key) => if key.len() != 32 {
            Err(ShardError::UnwrappedKeyInvalidLength)
        } else {
            Ok(key)
        },
    }
}

/// The view of a key result.
pub open spec fn key_result(res: Result<[u8; 32], ShardError>) -> Result<Seq<u8>, ShardError> {
    match res {
        Ok(k) => Ok(k@),
        Err(e) => Err(e),
    }
}

/// Key management for files: the key wrap strategy.
pub struct KeyManager;

impl KeyManager {
    /// Generates a random 32-byte file key.
    pub fn generate_file_key() -> [u8; 32] {
        random_bytes()
    }

    /// Wraps (encrypts) the file key with the master key.
    pub fn wrap_key(master_key: &[u8; 32], file_key: &[u8; 32]) -> (res: Result<Vec<u8>, ShardError>)
        ensures
            res is Ok,
            res matches Ok(wrapped) ==> wrapped@.len() == WRAPPED_KEY_LEN,
            res matches Ok(wrapped) ==> unwrapped(master_key@, wrapped@) == Ok::<
                Seq<u8>,
                ShardError,
            >(file_key@),
    {
        Cipher::encrypt(master_key, file_key.as_slice())
    }

    /// Unwraps (decrypts) the file key with the master key.
    pub fn unwrap_key(master_key: &[u8; 32], wrapped_key: &[u8]) -> (res: Result<[u8; 32], ShardError>)
        ensures
            key_result(res) == unwrapped(master_key@, wrapped_key@),
    {
        let decrypted = match Cipher::decrypt(master_key, wrapped_key) {
            Ok(d) => d,
            Err(e) => {
                return Err(e);
            },
        };
        if decrypted.len() != 32 {
            return Err(ShardError::UnwrappedKeyInvalidLength);
        }
        let mut file_key = [0u8; 32];
        let mut i: usize = 0;
        while i < 32
            invariant
                0 <= i <= 32,
                decrypted@.len() == 32,
                forall|j: int| 0 <= j < i ==> file_key@[j] == decrypted@[j],
            decreases 32 - i,
        {
            file_key[i] = decrypted[i];
            i = i + 1;
        }
        assert(file_key@ =~= decrypted@);
        Ok(file_key)
    }
}


// ---------------------------------------------------------------------------
// Secret splitting
// ---------------------------------------------------------------------------

/// `shares` are `n` shares of `secret` with threshold `k`, as `split` deals
/// them: share `i` starts with `i + 1`, and any `k` (and at least one)
/// distinct shares interpolate to the secret.
pub open spec fn is_dealing_of(shares: Seq<Seq<u8>>, secret: Seq<u8>, n: nat, k: nat) -> bool {
    &&& shares.len() == n
    &&& forall|i: int|
        0 <= i < n ==> (#[trigger] shares[i]).len() == secret.len() + 1 && shares[i][0] == i + 1
    &&& forall|sel: Seq<int>|
        valid_selection(sel, n) && sel.len() >= k && sel.len() >= 1
            ==> #[trigger] shamir_interpolate(select(shares, sel)) == secret
}

/// The first malformed share at or after position `i`, as an error.
pub open spec fn share_error_from(shares: Seq<Seq<u8>>, i: int) -> Option<ShardError>
    decreases shares.len() - i,
{
    if i < 0 || i >= shares.len() {
        None
    } else if shares[i].len() == 0 {
        Some(ShardError::EmptyShare)
    } else if shares[i].len() < 2 {
        Some(ShardError::InvalidShareFormat)
    } else {
        share_error_from(shares, i + 1)
    }
}

/// The dealing has threshold exactly `k`: for `k >= 2`, any `k - 1`
/// distinct shares interpolate to a value that differs from the secret in
/// every byte.
pub open spec fn misses_below_threshold(shares: Seq<Seq<u8>>, secret: Seq<u8>, n: nat, k: nat) -> bool {
    k >= 2 ==> forall|sel: Seq<int>, b: int|
        valid_selection(sel, n) && sel.len() == k - 1 && 0 <= b < secret.len()
            ==> #[trigger] shamir_interpolate(select(shares, sel))[b] != secret[b]
}

/// What recovering a secret from `shares` with threshold `k` gives.
pub open spec fn recovered(shares: Seq<Seq<u8>>, k: nat) -> Result<Seq<u8>, ShardError> {
    match share_error_from(shares, 0) {
        Some(e) => Err(e),
        None => if same_length(shares) && share_points(shares).len() >= 1 && share_points(
            shares,
        ).len() >= k {
            Ok(shamir_interpolate(shares))
        } else {
            Err(ShardError::SecretRecoveryFailed)
        },
    }
}

proof fn lemma_share_error_prefix(shares: Seq<Seq<u8>>, i: int)
    requires
        0 <= i <= shares.len(),
        forall|j: int| 0 <= j < i ==> (#[trigger] shares[j]).len() >= 2,
    ensures
        share_error_from(shares, 0) == share_error_from(shares, i),
    decreases i,
{
    if i > 0 {
        lemma_share_error_prefix(shares, i - 1);
    }
}

proof fn lemma_share_error_none(shares: Seq<Seq<u8>>, i: int)
    requires
        0 <= i <= shares.len(),
        forall|j: int| 0 <= j < shares.len() ==> (#[trigger] shares[j]).len() >= 2,
    ensures
        share_error_from(shares, i) is None,
    decreases shares.len() - i,
{
    if i < shares.len() {
        lemma_share_error_none(shares, i + 1);
    }
}

/// Shamir's secret sharing, splitting keys into shares.
pub struct KeySplitter;

impl KeySplitter {
    /// Splits a secret into `n` shares with a threshold of `k`.
    pub fn split(secret: &[u8], n: u8, k: u8) -> (res: Result<Vec<Vec<u8>>, ShardError>)
        ensures
            res is Ok,
            res matches Ok(shares) ==> is_dealing_of(byte_seqs(shares@), secret@, n as nat, k as nat),
            res matches Ok(shares) ==> misses_below_threshold(
                byte_seqs(shares@),
                secret@,
                n as nat,
                k as nat,
            ),
    {
        let shares = sharks_deal(k, secret, n);
        proof {
            let v = byte_seqs(shares@);
            assert forall|sel: Seq<int>|
                valid_selection(sel, n as nat) && sel.len() >= k && sel.len() >= 1 implies #[trigger] shamir_interpolate(
                select(v, sel),
            ) == secret@ by {
                assert(shamir_interpolate(select(byte_seqs(shares@), sel)) == secret@);
            }
            if k >= 2 {
                assert forall|sel: Seq<int>, b: int|
                    valid_selection(sel, n as nat) && sel.len() == k - 1 && 0 <= b
                        < secret@.len() implies #[trigger] shamir_interpolate(select(v, sel))[b]
                    != secret@[b] by {
                    assert(shamir_interpolate(select(byte_seqs(shares@), sel))[b] != secret@[b]);
                }
            }
        }
        Ok(shares)
    }

    /// Recovers a secret from a set of shares.
    pub fn recover(shares: &[Vec<u8>], k: u8) -> (res: Result<Vec<u8>, ShardError>)
        ensures
            bytes_result(res) == recovered(byte_seqs(shares@), k as nat),
    {
        let ghost v = byte_seqs(shares@);
        let mut i: usize = 0;
        while i < shares.len()
            invariant
                0 <= i <= shares@.len(),
                v == byte_seqs(shares@),
                forall|j: int| 0 <= j < i ==> (#[trigger] v[j]).len() >= 2,
            decreases shares@.len() - i,
        {
            proof {
                lemma_share_error_prefix(v, i as int);
            }
            if shares[i].len() == 0 {
                return Err(ShardError::EmptyShare);
            }
            if shares[i].len() < 2 {
                return Err(ShardError::InvalidShareFormat);
            }
            i = i + 1;
        }
        proof {
            lemma_share_error_none(v, 0);
            assert forall|j: int| 0 <= j < shares@.len() implies (#[trigger] shares@[j])@.len() >= 2 by {
                assert(v[j] == shares@[j]@);
            }
        }
        match sharks_recover(k, shares) {
            Ok(secret) => Ok(secret),
            Err(_) => Err(ShardError::SecretRecoveryFailed),
        }
    }
}

/// Law: any `k` (and at least one) distinct shares of a split of a non-empty
/// secret, in any order, recover the secret.
pub proof fn lemma_recover_after_split(
    shares: Seq<Seq<u8>>,
    secret: Seq<u8>,
    n: nat,
    k: nat,
    sel: Seq<int>,
)
    requires
        n <= 255,
        is_dealing_of(shares, secret, n, k),
        valid_selection(sel, n),
        sel.len() >= k,
        sel.len() >= 1,
        secret.len() >= 1,
    ensures
        recovered(select(shares, sel), k) == Ok::<Seq<u8>, ShardError>(secret),
{
    let chosen = select(shares, sel);
    assert forall|j: int| 0 <= j < chosen.len() implies (#[trigger] chosen[j]).len() >= 2 by {
        assert(shares[sel[j]].len() == secret.len() + 1);
    }
    lemma_share_error_none(chosen, 0);
    assert forall|i: int, j: int|
        0 <= i < chosen.len() && 0 <= j < chosen.len() implies (#[trigger] chosen[i]).len() == (
    #[trigger] chosen[j]).len() by {
        assert(shares[sel[i]].len() == secret.len() + 1);
        assert(shares[sel[j]].len() == secret.len() + 1);
    }
    let points = chosen.map_values(|s: Seq<u8>| s[0]);
    assert forall|i: int, j: int| 0 <= i < points.len() && 0 <= j < points.len() && i != j implies points[i]
        != points[j] by {
        assert(chosen[i][0] == sel[i] + 1);
        assert(chosen[j][0] == sel[j] + 1);
        assert(sel[i] != sel[j]);
    }
    assert(points.no_duplicates());
    points.unique_seq_to_set();
    assert(share_points(chosen) == points.to_set());
}

/// Law: shares of a split that hold fewer than `k` distinct shares (an empty
/// list, or one share repeated) never recover a secret.
pub proof fn lemma_too_few_shares_fail(
    shares: Seq<Seq<u8>>,
    secret: Seq<u8>,
    n: nat,
    k: nat,
    sel: Seq<int>,
)
    requires
        n <= 255,
        is_dealing_of(shares, secret, n, k),
        forall|i: int| 0 <= i < sel.len() ==> 0 <= #[trigger] sel[i] < n,
        sel.to_set().len() < k,
    ensures
        recovered(select(shares, sel), k) is Err,
{
    let chosen = select(shares, sel);
    if share_error_from(chosen, 0) is None {
        let points = chosen.map_values(|s: Seq<u8>| s[0]);
        let f = |j: int| (j + 1) as u8;
        let x = sel.to_set();
        assert forall|i: int| 0 <= i < sel.len() implies #[trigger] points[i] == f(sel[i]) by {
            assert(chosen[i] == shares[sel[i]]);
            assert(shares[sel[i]][0] == sel[i] + 1);
        }
        assert forall|b: u8| #[trigger] x.map(f).contains(b) <==> points.to_set().contains(b) by {
            if x.map(f).contains(b) {
                let a = choose|a: int| x.contains(a) && f(a) == b;
                assert(sel.contains(a));
                let i = choose|i: int| 0 <= i < sel.len() && sel[i] == a;
                assert(points[i] == b);
                assert(points.contains(b));
            }
            if points.to_set().contains(b) {
                assert(points.contains(b));
                let i = choose|i: int| 0 <= i < points.len() && points[i] == b;
                assert(x.contains(sel[i]));
                assert(f(sel[i]) == b);
            }
        }
        assert(x.map(f) =~= points.to_set());
        vstd::seq_lib::seq_to_set_is_finite(sel);
        vstd::set_lib::lemma_map_size_bound(x, points.to_set(), f);
        assert(share_points(chosen) == points.to_set());
    }
}

/// Law: a split with threshold `k >= 2` hides the secret from `k - 1` of its
/// shares: recovering from any `k - 1` distinct shares, whatever threshold is
/// passed to `recover`, never gives the secret back.
pub proof fn lemma_below_threshold_shares_miss_secret(
    shares: Seq<Seq<u8>>,
    secret: Seq<u8>,
    n: nat,
    k: nat,
    sel: Seq<int>,
    t: nat,
)
    requires
        is_dealing_of(shares, secret, n, k),
        misses_below_threshold(shares, secret, n, k),
        k >= 2,
        valid_selection(sel, n),
        sel.len() == k - 1,
    ensures
        recovered(select(shares, sel), t) != Ok::<Seq<u8>, ShardError>(secret),
{
    let chosen = select(shares, sel);
    assert(chosen[0] == shares[sel[0]]);
    if secret.len() == 0 {
        assert(chosen[0].len() == 1);
        assert(share_error_from(chosen, 0) is Some);
    } else {
        let got = shamir_interpolate(chosen);
        assert(got[0] != secret[0]);
        assert(got != secret);
    }
}

} // verus!
