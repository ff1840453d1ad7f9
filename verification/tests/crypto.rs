use shardnet::crypto::{
    generate_mnemonic, mnemonic_from_entropy, Cipher, Identity, KeyManager, KeySplitter,
};
use shardnet::error::ShardError;

const ZERO_ENTROPY_PHRASE: &str = "abandon abandon abandon abandon abandon abandon abandon abandon abandon abandon abandon abandon abandon abandon abandon abandon abandon abandon abandon abandon abandon abandon abandon art";

#[test]
fn test_mnemonic_generation_and_derivation() {
    let mnemonic = generate_mnemonic().unwrap();
    assert_eq!(mnemonic.split_whitespace().count(), 24);

    let id1 = Identity::from_mnemonic(&mnemonic).unwrap();
    let id2 = Identity::from_mnemonic(&mnemonic).unwrap();

    assert_eq!(id1.peer_id, id2.peer_id);
    assert_eq!(id1.master_key, id2.master_key);
}

#[test]
fn test_encryption_decryption() {
    let key = KeyManager::generate_file_key();
    let plaintext = b"hello shardnet";
    let encrypted = Cipher::encrypt(&key, plaintext).unwrap();
    let decrypted = Cipher::decrypt(&key, &encrypted).unwrap();
    assert_eq!(plaintext, decrypted.as_slice());
}

#[test]
fn test_key_wrap() {
    let master_key = KeyManager::generate_file_key();
    let file_key = KeyManager::generate_file_key();

    let wrapped = KeyManager::wrap_key(&master_key, &file_key).unwrap();
    let unwrapped = KeyManager::unwrap_key(&master_key, &wrapped).unwrap();

    assert_eq!(file_key, unwrapped);
}

#[test]
fn test_shamir_secret_sharing() {
    let secret = b"my super secret master key or something else";
    let n = 5;
    let k = 3;

    let shares = KeySplitter::split(secret, n, k).unwrap();
    assert_eq!(shares.len(), 5);

    // Recover with 3 shares
    let subset1 = vec![shares[0].clone(), shares[2].clone(), shares[4].clone()];
    let recovered1 = KeySplitter::recover(&subset1, k).unwrap();
    assert_eq!(secret.as_slice(), recovered1.as_slice());

    // Recover with 4 shares
    let subset2 = vec![shares[0].clone(), shares[1].clone(), shares[2].clone(), shares[3].clone()];
    let recovered2 = KeySplitter::recover(&subset2, k).unwrap();
    assert_eq!(secret.as_slice(), recovered2.as_slice());
}

#[test]
fn mnemonic_from_zero_entropy_is_the_bip39_vector() {
    let phrase = mnemonic_from_entropy(&[0u8; 32]).unwrap();
    assert_eq!(phrase, ZERO_ENTROPY_PHRASE);
}

#[test]
fn identity_from_known_phrase_matches_hkdf_and_libp2p() {
    let id = Identity::from_mnemonic(ZERO_ENTROPY_PHRASE).unwrap();
    assert_eq!(
        id.master_key,
        [
            110, 94, 34, 94, 44, 188, 118, 216, 172, 44, 54, 10, 234, 249, 77, 207, 24, 43, 43,
            208, 71, 245, 103, 253, 157, 239, 206, 151, 45, 95, 160, 129
        ]
    );
    assert_eq!(
        id.p2p_secret,
        [
            40, 33, 14, 57, 36, 147, 180, 193, 0, 80, 67, 93, 223, 241, 13, 150, 147, 8, 35, 249,
            84, 158, 198, 179, 141, 188, 229, 178, 141, 180, 220, 151
        ]
    );
    assert_eq!(id.peer_id, "12D3KooWF7tDuTA1S2VTdDe65r9jtAvN4eLjfTGRaF9PvW77CZ3f");
}

#[test]
fn invalid_mnemonic_is_refused() {
    assert_eq!(
        Identity::from_mnemonic("not a valid recovery phrase").err(),
        Some(ShardError::InvalidMnemonic)
    );
}

#[test]
fn encryption_with_known_nonce_matches_aes_gcm_vector() {
    let data = Cipher::encrypt_with_nonce(&[0u8; 32], &[0u8; 12], &[0u8; 16]).unwrap();
    let mut expected = vec![0u8; 12];
    expected.extend_from_slice(&[
        0xce, 0xa7, 0x40, 0x3d, 0x4d, 0x60, 0x6b, 0x6e, 0x07, 0x4e, 0xc5, 0xd3, 0xba, 0xf3, 0x9d,
        0x18, 0xd0, 0xd1, 0xc8, 0xa7, 0x99, 0x99, 0x6b, 0xf0, 0x26, 0x5b, 0x98, 0xb5, 0xd4, 0x8a,
        0xb9, 0x19,
    ]);
    assert_eq!(data, expected);
    assert_eq!(Cipher::decrypt(&[0u8; 32], &data).unwrap(), vec![0u8; 16]);
}

#[test]
fn encrypted_data_has_nonce_and_tag() {
    let key = KeyManager::generate_file_key();
    let encrypted = Cipher::encrypt(&key, b"abc").unwrap();
    assert_eq!(encrypted.len(), 12 + 3 + 16);
}

#[test]
fn decrypting_short_data_fails() {
    let key = [7u8; 32];
    assert_eq!(Cipher::decrypt(&key, &[0u8; 11]).err(), Some(ShardError::EncryptedDataTooShort));
}

#[test]
fn decrypting_with_wrong_key_fails() {
    let encrypted = Cipher::encrypt(&[1u8; 32], b"secret").unwrap();
    assert_eq!(Cipher::decrypt(&[2u8; 32], &encrypted).err(), Some(ShardError::DecryptionFailed));
}

#[test]
fn tampered_ciphertext_fails() {
    let mut encrypted = Cipher::encrypt(&[1u8; 32], b"secret").unwrap();
    let last = encrypted.len() - 1;
    encrypted[last] ^= 1;
    assert_eq!(Cipher::decrypt(&[1u8; 32], &encrypted).err(), Some(ShardError::DecryptionFailed));
}

#[test]
fn wrapped_key_has_sixty_bytes() {
    let wrapped = KeyManager::wrap_key(&[3u8; 32], &[4u8; 32]).unwrap();
    assert_eq!(wrapped.len(), 60);
}

#[test]
fn unwrapping_a_short_key_fails() {
    let master = [5u8; 32];
    let wrapped = Cipher::encrypt(&master, &[9u8; 31]).unwrap();
    assert_eq!(
        KeyManager::unwrap_key(&master, &wrapped).err(),
        Some(ShardError::UnwrappedKeyInvalidLength)
    );
}

#[test]
fn unwrapping_under_another_master_key_fails() {
    let wrapped = KeyManager::wrap_key(&[3u8; 32], &[4u8; 32]).unwrap();
    assert_eq!(
        KeyManager::unwrap_key(&[6u8; 32], &wrapped).err(),
        Some(ShardError::DecryptionFailed)
    );
}

#[test]
fn shares_carry_their_x_coordinate() {
    let secret = b"abc";
    let shares = KeySplitter::split(secret, 4, 2).unwrap();
    assert_eq!(shares.len(), 4);
    for (i, share) in shares.iter().enumerate() {
        assert_eq!(share.len(), secret.len() + 1);
        assert_eq!(share[0] as usize, i + 1);
    }
}

#[test]
fn any_threshold_of_shares_recovers_in_any_order() {
    let secret = b"0123456789abcdef0123456789abcdef";
    let shares = KeySplitter::split(secret, 6, 3).unwrap();
    let subset = vec![shares[5].clone(), shares[1].clone(), shares[3].clone()];
    assert_eq!(KeySplitter::recover(&subset, 3).unwrap(), secret.to_vec());
}

#[test]
fn too_few_shares_fail() {
    let shares = KeySplitter::split(b"secret", 5, 3).unwrap();
    let subset = vec![shares[0].clone(), shares[1].clone()];
    assert_eq!(KeySplitter::recover(&subset, 3).err(), Some(ShardError::SecretRecoveryFailed));
}

#[test]
fn empty_share_fails() {
    let shares = vec![vec![1u8, 2], vec![]];
    assert_eq!(KeySplitter::recover(&shares, 1).err(), Some(ShardError::EmptyShare));
}

#[test]
fn one_byte_share_fails() {
    let shares = vec![vec![1u8]];
    assert_eq!(KeySplitter::recover(&shares, 1).err(), Some(ShardError::InvalidShareFormat));
}

#[test]
fn one_share_repeated_threshold_times_fails() {
    let shares = KeySplitter::split(b"secret", 5, 3).unwrap();
    let repeated = vec![shares[2].clone(), shares[2].clone(), shares[2].clone()];
    assert_eq!(KeySplitter::recover(&repeated, 3).err(), Some(ShardError::SecretRecoveryFailed));
    let none: Vec<Vec<u8>> = Vec::new();
    assert_eq!(KeySplitter::recover(&none, 3).err(), Some(ShardError::SecretRecoveryFailed));
}
