use finiterain::conversation::{ConnectionInfo, Conversation, PacketAction, PacketError, PeerAddr};
use finiterain::errors::{NotT3z0sStreamError, T3z0sNodeIdentityNotLoadedError};
use finiterain::identity::{decode_public_key, Config, ConfigStore, Identity, IdentityError};

fn identity(public_key: &str) -> Identity {
    Identity {
        peer_id: "idtAbc".to_string(),
        public_key: public_key.to_string(),
        secret_key: "00".to_string(),
        proof_of_work_stamp: "11".to_string(),
    }
}

fn addr(port: u16) -> PeerAddr {
    PeerAddr { ip: 0x7f000001, is_v6: false, port }
}

#[test]
fn error_messages() {
    assert_eq!(NotT3z0sStreamError.message(), "not a t3z0s stream");
    assert_eq!(T3z0sNodeIdentityNotLoadedError.message(), "t3z0s node identity not loaded");
}

#[test]
fn public_key_is_decoded() {
    assert_eq!(decode_public_key(&identity("00ff1A")).unwrap(), vec![0x00, 0xff, 0x1a]);
    assert_eq!(decode_public_key(&identity("")).unwrap(), Vec::<u8>::new());
    assert_eq!(decode_public_key(&identity("123")), Err(IdentityError::BadPublicKey));
    assert_eq!(decode_public_key(&identity("zz")), Err(IdentityError::BadPublicKey));
}

#[test]
fn default_configuration() {
    let c = Config::default(Ok(identity("ab"))).unwrap();
    assert_eq!(c.identity_json_filepath, "identity/identity.json");
    assert_eq!(c.identity, identity("ab"));
    assert_eq!(
        Config::default(Err(IdentityError::Unreadable("no file".to_string()))),
        Err(IdentityError::Unreadable("no file".to_string()))
    );
}

#[test]
fn configuration_store() {
    let mut store = ConfigStore::new();
    assert_eq!(store.get_configuration(), None);
    assert_eq!(store.with_configuration(|c| c.is_ok()), false);
    store.preferences_update(Some(("id.json".to_string(), Ok(identity("ab")))));
    let c = store.get_configuration().unwrap();
    assert_eq!(c.identity_json_filepath, "id.json");
    let key = store.with_configuration(|c| match c {
        Ok(c) => Some(c.identity.public_key.clone()),
        Err(_) => None,
    });
    assert_eq!(key, Some("ab".to_string()));
    store.preferences_update(Some(("bad.json".to_string(), Err(IdentityError::Malformed("x".to_string())))));
    assert_eq!(store.get_configuration(), None);
    store.preferences_update(None);
    assert_eq!(store.current, Err(IdentityError::NotLoaded));
}

#[test]
fn conversation_life() {
    let mut conv = Conversation::new();
    assert!(conv.is_ok());
    assert_eq!(conv.process_packet(Some(addr(1)), false), Ok(PacketAction::ReadConnectionMessage));
    assert_eq!(conv.counter, 1);
    // The first message was not recorded: the stream is refused.
    assert!(!conv.is_ok());
    assert_eq!(conv.process_packet(Some(addr(2)), true), Err(PacketError::NotT3z0sStream(NotT3z0sStreamError)));
    assert_eq!(conv.counter, 1);

    conv.record_connection_message(ConnectionInfo { public_key: vec![1, 2], addr: addr(1) });
    assert_eq!(conv.process_packet(Some(addr(2)), true), Ok(PacketAction::ReadConnectionMessage));
    conv.record_connection_message(ConnectionInfo { public_key: vec![3, 4], addr: addr(2) });
    assert_eq!(conv.counter, 2);

    assert_eq!(conv.process_packet(None, true), Err(PacketError::BadAddress));
    assert_eq!(
        conv.process_packet(Some(addr(1)), false),
        Err(PacketError::IdentityNotLoaded(T3z0sNodeIdentityNotLoadedError))
    );
    assert_eq!(conv.process_packet(Some(addr(1)), true), Ok(PacketAction::Upgrade));

    // The first key is not ours: incoming, the second message is the received one.
    let (is_incoming, received, sent) = conv.upgrade_roles(false);
    assert_eq!((is_incoming, received, sent), (true, 1, 0));
    conv.complete_upgrade(is_incoming, received, "idtPeer".to_string());
    assert!(conv.is_initialized);
    assert_eq!(conv.public_key, vec![3, 4]);
    assert_eq!(conv.peer_id, "idtPeer");
    assert_eq!(conv.local_addr(), addr(2));

    assert_eq!(conv.process_packet(Some(addr(2)), true), Ok(PacketAction::Decrypt { outgoing: true }));
    assert_eq!(conv.process_packet(Some(addr(1)), true), Ok(PacketAction::Decrypt { outgoing: false }));
    assert_eq!(conv.counter, 7);
}

#[test]
fn upgrade_roles_outgoing() {
    let mut conv = Conversation::new();
    conv.record_connection_message(ConnectionInfo { public_key: vec![1], addr: addr(5) });
    conv.record_connection_message(ConnectionInfo { public_key: vec![2], addr: addr(6) });
    assert_eq!(conv.upgrade_roles(true), (false, 0, 1));
    conv.complete_upgrade(false, 0, "p".to_string());
    assert_eq!(conv.local_addr(), addr(5));
    assert_eq!(conv.public_key, vec![1]);
}
