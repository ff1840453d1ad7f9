use shardnet::crypto::Identity;
use shardnet::daemon::Daemon;
use shardnet::error::ShardError;
use shardnet::network::Invitation;

const PHRASE: &str = "abandon abandon abandon abandon abandon abandon abandon abandon abandon abandon abandon abandon abandon abandon abandon abandon abandon abandon abandon abandon abandon abandon abandon art";

#[test]
fn admin_node_derives_its_keys_from_the_seed() {
    let d = Daemon::new_admin(PHRASE, "/tmp/shardnet-admin").unwrap();
    let id = Identity::from_mnemonic(PHRASE).unwrap();
    assert!(d.is_admin);
    assert_eq!(d.k, 3);
    assert_eq!(d.n, 5);
    assert_eq!(d.master_key, id.master_key);
    assert_eq!(d.identity.peer_id, id.peer_id);
    assert_eq!(d.storage_engine.base_dir, "/tmp/shardnet-admin");
}

#[test]
fn admin_generates_invitations() {
    let d = Daemon::new_admin(PHRASE, "/tmp/shardnet-admin").unwrap();
    let inv = d.generate_invitation("/ip4/127.0.0.1/tcp/4001").unwrap();
    assert_eq!(inv.admin_peer_id, d.identity.peer_id);
    assert_eq!(inv.bootstrap_addr, "/ip4/127.0.0.1/tcp/4001");
    assert_eq!(inv.namespace, "shardnet-main");
    assert_eq!(inv.psk, vec![1, 2, 3, 4]);
}

#[test]
fn joined_node_is_no_admin() {
    let inv = Invitation {
        admin_peer_id: "12D3KooW".to_string(),
        bootstrap_addr: "/ip4/127.0.0.1/tcp/4001".to_string(),
        namespace: "shardnet-main".to_string(),
        psk: vec![1, 2, 3, 4],
    };
    let mut d = Daemon::join_from_invitation(&inv, "/tmp/shardnet-peer").unwrap();
    assert!(!d.is_admin);
    assert_eq!(d.master_key, [0u8; 32]);
    assert_eq!(
        d.generate_invitation("/ip4/127.0.0.1/tcp/4001").err(),
        Some(ShardError::InvitationRequiresAdmin)
    );
    assert_eq!(d.rotate_master_key(PHRASE).err(), Some(ShardError::RotationRequiresAdmin));
    assert_eq!(d.master_key, [0u8; 32]);
}

#[test]
fn rotation_replaces_only_the_master_key() {
    let other = "legal winner thank year wave sausage worth useful legal winner thank year wave sausage worth useful legal winner thank year wave sausage worth title";
    let mut d = Daemon::new_admin(PHRASE, "/tmp/shardnet-admin").unwrap();
    let peer_before = d.identity.peer_id.clone();
    d.rotate_master_key(other).unwrap();
    assert_eq!(d.master_key, Identity::from_mnemonic(other).unwrap().master_key);
    assert_eq!(d.identity.peer_id, peer_before);
    assert_eq!(d.rotate_master_key("bogus words").err(), Some(ShardError::InvalidMnemonic));
    assert_eq!(d.master_key, Identity::from_mnemonic(other).unwrap().master_key);
}
