use vstd::prelude::*;

use crate::crypto::{
    bip39_phrase, bip39_seed, generate_mnemonic, hkdf_sha256, master_key_label, Identity,
};
use crate::error::ShardError;
use crate::network::Invitation;
use crate::storage::LocalStorageEngine;

verus! {

/// The default number of shards needed to reconstruct a file.
pub const DEFAULT_THRESHOLD: usize = 3;

/// The default number of shards (nodes) a file is spread over.
pub const DEFAULT_TOTAL_NODES: usize = 5;

/// The gossip namespace that invitations name.
pub open spec fn network_namespace() -> Seq<char> {
    "shardnet-main"@
}

/// The pre-shared key that invitations carry.
pub open spec fn invitation_psk() -> Seq<u8> {
    seq![1u8, 2u8, 3u8, 4u8]
}

/// The state of a daemon node.
pub struct Daemon {
    pub identity: Identity,
    pub storage_engine: LocalStorageEngine,
    pub k: usize,
    pub n: usize,
    pub is_admin: bool,
    pub master_key: [u8; 32],
}

impl Daemon {
    /// Initializes a new admin node from its recovery seed: the identity and
    /// master key are derived from the seed, with the default threshold.
    pub fn new_admin(seed: &str, storage_dir: &str) -> (res: Result<Daemon, ShardError>)
        ensures
            res is Ok <==> bip39_seed(seed@) is Some,
            res is Err ==> res == Err::<Daemon, ShardError>(ShardError::InvalidMnemonic),
            res matches Ok(d) ==> {
                &&& d.identity.derived_from_seed(bip39_seed(seed@)->0)
                &&& d.storage_engine.base_dir@ == storage_dir@
                &&& d.k == DEFAULT_THRESHOLD
                &&& d.n == DEFAULT_TOTAL_NODES
                &&& d.is_admin
                &&& d.master_key == d.identity.master_key
            },
    {
        let identity = match Identity::from_mnemonic(seed) {
            Ok(id) => id,
            Err(e) => {
                return Err(e);
            },
        };
        let storage_engine = LocalStorageEngine::new(storage_dir);
        let master_key = identity.master_key;
        Ok(Daemon {
            identity,
            storage_engine,
            k: DEFAULT_THRESHOLD,
            n: DEFAULT_TOTAL_NODES,
            is_admin: true,
            master_key,
        })
    }

    /// Joins the network that `invitation` (already decoded) names: the node
    /// gets a fresh identity from a newly generated mnemonic, is no admin, and
    /// holds an all-zero master key until the quorum hands it the real one.
    pub fn join_from_invitation(_invitation: &Invitation, storage_dir: &str) -> (res: Result<
        Daemon,
        ShardError,
    >)
        ensures
            res is Ok,
            res matches Ok(d) ==> {
                &&& exists|entropy: Seq<u8>|
                    entropy.len() == 32 && d.identity.derived_from_seed(
                        bip39_seed(#[trigger] bip39_phrase(entropy))->0,
                    )
                &&& d.storage_engine.base_dir@ == storage_dir@
                &&& d.k == DEFAULT_THRESHOLD
                &&& d.n == DEFAULT_TOTAL_NODES
                &&& !d.is_admin
                &&& d.master_key@ == Seq::new(32, |i: int| 0u8)
            },
    {
        let seed = match generate_mnemonic() {
            Ok(phrase) => phrase,
            Err(e) => {
                return Err(e);
            },
        };
        let identity = match Identity::from_mnemonic(seed.as_str()) {
            Ok(id) => id,
            Err(e) => {
                return Err(e);
            },
        };
        let storage_engine = LocalStorageEngine::new(storage_dir);
        let master_key = [0u8; 32];
        assert(master_key@ =~= Seq::new(32, |i: int| 0u8));
        Ok(Daemon {
            identity,
            storage_engine,
            k: DEFAULT_THRESHOLD,
            n: DEFAULT_TOTAL_NODES,
            is_admin: false,
            master_key,
        })
    }

    /// Generates an invitation to this node's network; only an admin may.
    pub fn generate_invitation(&self, bootstrap_addr: &str) -> (res: Result<Invitation, ShardError>)
        ensures
            res is Ok <==> self.is_admin,
            res is Err ==> res == Err::<Invitation, ShardError>(
                ShardError::InvitationRequiresAdmin,
            ),
            res matches Ok(inv) ==> {
                &&& inv.admin_peer_id@ == self.identity.peer_id@
                &&& inv.bootstrap_addr@ == bootstrap_addr@
                &&& inv.namespace@ == network_namespace()
                &&& inv.psk@ == invitation_psk()
            },
    {
        if !self.is_admin {
            return Err(ShardError::InvitationRequiresAdmin);
        }
        let mut psk: Vec<u8> = Vec::new();
        psk.push(1u8);
        psk.push(2u8);
        psk.push(3u8);
        psk.push(4u8);
        assert(psk@ =~= invitation_psk());
        Ok(Invitation {
            admin_peer_id: self.identity.peer_id.clone(),
            bootstrap_addr: bootstrap_addr.to_owned(),
            namespace: "shardnet-main".to_owned(),
            psk,
        })
    }

    /// Rotates the master key to the one derived from `new_seed`; only an
    /// admin may. Nothing else about the node changes; the background loop
    /// re-encrypts file keys lazily.
    pub fn rotate_master_key(&mut self, new_seed: &str) -> (res: Result<(), ShardError>)
        ensures
            !old(self).is_admin ==> res == Err::<(), ShardError>(
                ShardError::RotationRequiresAdmin,
            ) && *final(self) == *old(self),
            old(self).is_admin && bip39_seed(new_seed@) is None ==> res == Err::<(), ShardError>(
                ShardError::InvalidMnemonic,
            ) && *final(self) == *old(self),
            old(self).is_admin && bip39_seed(new_seed@) is Some ==> {
                &&& res is Ok
                &&& final(self).master_key@ == hkdf_sha256(
                    bip39_seed(new_seed@)->0,
                    master_key_label(),
                )
                &&& final(self).identity == old(self).identity
                &&& final(self).storage_engine == old(self).storage_engine
                &&& final(self).k == old(self).k
                &&& final(self).n == old(self).n
                &&& final(self).is_admin
            },
    {
        if !self.is_admin {
            return Err(ShardError::RotationRequiresAdmin);
        }
        let new_identity = match Identity::from_mnemonic(new_seed) {
            Ok(id) => id,
            Err(e) => {
                return Err(e);
            },
        };
        self.master_key = new_identity.master_key;
        Ok(())
    }
}

} // verus!
