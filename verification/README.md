# shardnet

The core of a decentralized, RAID-style storage daemon, verified with Verus.

- `src/crypto.rs` — identity and master key derived from a BIP-39 phrase
  (HKDF-SHA256, libp2p Ed25519), AES-256-GCM encryption with a prepended
  nonce, file-key wrapping, and Shamir secret splitting.
- `src/storage.rs` — checksummed shards, Reed-Solomon sharding of file
  content (`k` of `n`) and its reconstruction from any `k` intact shards.
- `src/network.rs` — invitations and the base64 text they travel as.
- `src/daemon.rs` — node state: admin and joined nodes, invitations, key
  rotation.
- `src/sync.rs` — the throttle loop's decisions and lazy re-encryption of a
  file under a new master key.
- `app/` — the command line, logging, disk I/O, serialization, the libp2p
  behaviour and the rate limiter, around the library.

Calls into outside crates go through small trusted functions whose contracts
state what those crates document; everything else is proved.
