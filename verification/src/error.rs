use vstd::prelude::*;

verus! {

/// Every way an operation of this library can fail.
#[derive(Debug, Clone, Copy, PartialEq, Eq, Structural)]
pub enum ShardError {
    /// The recovery phrase is not a valid BIP-39 mnemonic.
    InvalidMnemonic,
    /// Entropy of a length BIP-39 does not accept.
    InvalidEntropy,
    /// Key derivation could not produce the requested length.
    KeyDerivationFailed,
    /// The derived Ed25519 secret key was refused.
    InvalidIdentityKey,
    /// AES-256-GCM refused to encrypt.
    EncryptionFailed,
    /// AES-256-GCM refused to decrypt (wrong key or tampered data).
    DecryptionFailed,
    /// Encrypted data shorter than its nonce.
    EncryptedDataTooShort,
    /// A decrypted file key does not have 32 bytes.
    UnwrappedKeyInvalidLength,
    /// A secret share with no bytes.
    EmptyShare,
    /// A secret share too short to hold a point.
    InvalidShareFormat,
    /// The shares do not suffice to recover the secret.
    SecretRecoveryFailed,
    /// Threshold or shard count out of range.
    InvalidShardParameters,
    /// The erasure coder refused the shard counts.
    ErasureCoderInit,
    /// The erasure coder refused to encode.
    ErasureEncodingFailed,
    /// The number of shard slots is not the expected one.
    ShardCountMismatch(usize),
    /// No present shard with data.
    NoValidShards,
    /// The shard at this index does not match its checksum.
    ShardChecksumFailed(usize),
    /// The erasure coder could not rebuild the shards.
    ErasureReconstructionFailed,
    /// A data shard is still missing after reconstruction.
    DataShardMissing(usize),
    /// Reconstructed data too small to hold a wrapped key.
    WrappedKeyMissing,
    /// Only admin nodes may generate invitations.
    InvitationRequiresAdmin,
    /// Only admin nodes may rotate the master key.
    RotationRequiresAdmin,
    /// Text that is not valid base64.
    InvalidBase64,
    /// Bytes that are not valid UTF-8.
    InvalidUtf8,
}

} // verus!
