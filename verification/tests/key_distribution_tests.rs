use libp2p::identity;
use p2p_sync::crypto::SignedData;
use p2p_sync::key_distribution::{
    KeyDistributionConfig, KeyDistributionManager, KeyDistributionMessage,
};
use p2p_sync::sync::P2PMessage;
use p2p_sync::whitelist::PeerWhitelist;

#[test]
fn test_key_distribution_manager_creation() {
    let keypair = identity::Keypair::generate_ed25519();
    let config = KeyDistributionConfig::default();
    let _manager = KeyDistributionManager::new(config, keypair);
}

#[test]
fn test_key_announcement_creation() {
    let keypair = identity::Keypair::generate_ed25519();
    let local_id = keypair.public().to_peer_id().to_string();
    let config = KeyDistributionConfig::default();

    let manager = KeyDistributionManager::new(config, keypair);
    let announcement = manager.create_key_announcement(1000);

    match announcement {
        KeyDistributionMessage::KeyAnnouncement { peer_id, public_key, .. } => {
            assert_eq!(peer_id, local_id);
            assert!(!public_key.is_empty());
        }
        _ => panic!("Expected KeyAnnouncement"),
    }
}

#[test]
fn test_missing_keys_request() {
    let mut whitelist = PeerWhitelist::new();

    // Add a peer without public key
    let peer_id = identity::Keypair::generate_ed25519().public().to_peer_id().to_string();
    whitelist.add_peer(&peer_id, Some("Test Peer".to_string()), None, None, 1000).unwrap();

    let keypair = identity::Keypair::generate_ed25519();
    let config = KeyDistributionConfig::default();

    let mut manager = KeyDistributionManager::new(config, keypair);
    let requests = manager.request_missing_keys(&whitelist, 1000);

    assert_eq!(requests.len(), 1);
    match &requests[0] {
        KeyDistributionMessage::KeyRequest { target, .. } => {
            assert_eq!(target, &peer_id);
        }
        _ => panic!("Expected KeyRequest"),
    }
}

#[test]
fn test_missing_keys_request_suppressed_while_pending() {
    let mut whitelist = PeerWhitelist::new();
    let peer_id = identity::Keypair::generate_ed25519().public().to_peer_id().to_string();
    whitelist.add_peer(&peer_id, None, None, None, 1000).unwrap();

    let keypair = identity::Keypair::generate_ed25519();
    let mut manager = KeyDistributionManager::new(KeyDistributionConfig::default(), keypair);

    assert_eq!(manager.request_missing_keys(&whitelist, 1000).len(), 1);
    // within five minutes the request is not repeated
    assert_eq!(manager.request_missing_keys(&whitelist, 1100).len(), 0);
    // five minutes later it is
    assert_eq!(manager.request_missing_keys(&whitelist, 1000 + 301).len(), 1);
}

#[test]
fn test_key_request_answered_with_local_key() {
    // B asks A for A's key; A answers with its own key
    let kp_a = identity::Keypair::generate_ed25519();
    let kp_b = identity::Keypair::generate_ed25519();
    let a_id = kp_a.public().to_peer_id().to_string();
    let b_id = kp_b.public().to_peer_id().to_string();
    let a_pk = kp_a.public().encode_protobuf();

    let mut whitelist = PeerWhitelist::new();
    whitelist.add_peer(&b_id, None, None, None, 1000).unwrap();

    let mut manager = KeyDistributionManager::new(KeyDistributionConfig::default(), kp_a);
    let request = KeyDistributionMessage::KeyRequest {
        requestor: b_id.clone(),
        target: a_id.clone(),
        timestamp: 1000,
    };
    let envelope =
        SignedData::new(P2PMessage::KeyDistribution(request.clone()), &kp_b).unwrap();

    let response =
        manager.handle_message(&mut whitelist, &request, &envelope.signature, &b_id, 1000);
    match response {
        Some(KeyDistributionMessage::KeyResponse { target, public_key, .. }) => {
            assert_eq!(target, a_id);
            assert_eq!(public_key, a_pk);
        }
        _ => panic!("Expected KeyResponse"),
    }
}

#[test]
fn test_key_request_from_stranger_ignored() {
    let kp_a = identity::Keypair::generate_ed25519();
    let kp_b = identity::Keypair::generate_ed25519();
    let a_id = kp_a.public().to_peer_id().to_string();
    let b_id = kp_b.public().to_peer_id().to_string();

    let mut whitelist = PeerWhitelist::new();
    let mut manager = KeyDistributionManager::new(KeyDistributionConfig::default(), kp_a);
    let request = KeyDistributionMessage::KeyRequest {
        requestor: b_id.clone(),
        target: a_id,
        timestamp: 1000,
    };
    let envelope =
        SignedData::new(P2PMessage::KeyDistribution(request.clone()), &kp_b).unwrap();

    // B is not whitelisted: no answer
    let response =
        manager.handle_message(&mut whitelist, &request, &envelope.signature, &b_id, 1000);
    assert!(response.is_none());
}

#[test]
fn test_stale_message_dropped() {
    let kp_a = identity::Keypair::generate_ed25519();
    let kp_b = identity::Keypair::generate_ed25519();
    let b_id = kp_b.public().to_peer_id().to_string();

    let mut whitelist = PeerWhitelist::new();
    whitelist.add_peer(&b_id, None, None, None, 0).unwrap();

    let mut manager = KeyDistributionManager::new(KeyDistributionConfig::default(), kp_a);
    let announcement = KeyDistributionMessage::KeyAnnouncement {
        peer_id: b_id.clone(),
        public_key: kp_b.public().encode_protobuf(),
        timestamp: 0,
    };
    let envelope =
        SignedData::new(P2PMessage::KeyDistribution(announcement.clone()), &kp_b).unwrap();

    // more than a day later the announcement is stale
    let much_later = 25 * 3600;
    let response = manager.handle_message(
        &mut whitelist,
        &announcement,
        &envelope.signature,
        &b_id,
        much_later,
    );
    assert!(response.is_none());
    assert!(whitelist.get_public_key(&b_id).is_none());
}

#[test]
fn test_replay_drop() {
    // The same signed announcement delivered twice mutates the whitelist
    // only once
    let kp_a = identity::Keypair::generate_ed25519();
    let kp_b = identity::Keypair::generate_ed25519();
    let b_id = kp_b.public().to_peer_id().to_string();
    let b_pk = kp_b.public().encode_protobuf();

    let mut whitelist = PeerWhitelist::new();
    whitelist.add_peer(&b_id, Some("B".to_string()), None, None, 500).unwrap();

    let mut manager = KeyDistributionManager::new(KeyDistributionConfig::default(), kp_a);
    let announcement = KeyDistributionMessage::KeyAnnouncement {
        peer_id: b_id.clone(),
        public_key: b_pk.clone(),
        timestamp: 1000,
    };
    let envelope =
        SignedData::new(P2PMessage::KeyDistribution(announcement.clone()), &kp_b).unwrap();

    let r1 = manager.handle_message(&mut whitelist, &announcement, &envelope.signature, &b_id, 1000);
    assert!(r1.is_none());
    assert_eq!(whitelist.get_public_key(&b_id), Some(b_pk.clone()));
    let added_at_first = whitelist.list_peers()[0].added_at;

    // second delivery: dropped, row untouched
    let r2 = manager.handle_message(&mut whitelist, &announcement, &envelope.signature, &b_id, 1500);
    assert!(r2.is_none());
    assert_eq!(whitelist.get_public_key(&b_id), Some(b_pk));
    assert_eq!(whitelist.list_peers()[0].added_at, added_at_first);
}

#[test]
fn test_trust_recommendation_scenario() {
    // Whitelisted W1 vouches for X: the chain carries trust until W1 is
    // removed
    let kp_a = identity::Keypair::generate_ed25519();
    let kp_w1 = identity::Keypair::generate_ed25519();
    let w1_id = kp_w1.public().to_peer_id().to_string();
    let x_id = identity::Keypair::generate_ed25519().public().to_peer_id().to_string();

    let mut whitelist = PeerWhitelist::new();
    whitelist.add_peer(&w1_id, None, None, None, 1000).unwrap();

    let mut manager = KeyDistributionManager::new(KeyDistributionConfig::default(), kp_a);
    assert!(!whitelist.is_trusted_by_chain(&x_id, 1000));

    let rec = KeyDistributionMessage::TrustRecommendation {
        recommender: w1_id.clone(),
        recommended: x_id.clone(),
        name: None,
        timestamp: 1000,
    };
    let envelope = SignedData::new(P2PMessage::KeyDistribution(rec.clone()), &kp_w1).unwrap();
    let r = manager.handle_message(&mut whitelist, &rec, &envelope.signature, &w1_id, 1000);
    assert!(r.is_none());
    assert!(whitelist.is_trusted_by_chain(&x_id, 1000));

    whitelist.remove_peer(&w1_id);
    assert!(!whitelist.is_trusted_by_chain(&x_id, 1000));
}

#[test]
fn test_key_response_updates_whitelisted_row() {
    let kp_a = identity::Keypair::generate_ed25519();
    let kp_b = identity::Keypair::generate_ed25519();
    let kp_t = identity::Keypair::generate_ed25519();
    let b_id = kp_b.public().to_peer_id().to_string();
    let t_id = kp_t.public().to_peer_id().to_string();
    let t_pk = kp_t.public().encode_protobuf();

    let mut whitelist = PeerWhitelist::new();
    whitelist.add_peer(&b_id, None, None, None, 900).unwrap();
    whitelist.add_peer(&t_id, Some("Target".to_string()), None, Some(9000), 900).unwrap();

    let mut manager = KeyDistributionManager::new(KeyDistributionConfig::default(), kp_a);
    let response = KeyDistributionMessage::KeyResponse {
        target: t_id.clone(),
        public_key: t_pk.clone(),
        timestamp: 1000,
    };
    let envelope =
        SignedData::new(P2PMessage::KeyDistribution(response.clone()), &kp_b).unwrap();
    let r = manager.handle_message(&mut whitelist, &response, &envelope.signature, &b_id, 1000);
    assert!(r.is_none());
    assert_eq!(whitelist.get_public_key(&t_id), Some(t_pk));

    // label and expiry survive the key update
    let entries = whitelist.list_peers();
    let row = entries.iter().find(|e| e.peer_id == t_id).unwrap();
    assert_eq!(row.name, Some("Target".to_string()));
    assert_eq!(row.expires_at, Some(9000));
}

#[test]
fn test_announcement_for_other_peer_ignored() {
    let kp_a = identity::Keypair::generate_ed25519();
    let kp_b = identity::Keypair::generate_ed25519();
    let kp_c = identity::Keypair::generate_ed25519();
    let b_id = kp_b.public().to_peer_id().to_string();
    let c_id = kp_c.public().to_peer_id().to_string();

    let mut whitelist = PeerWhitelist::new();
    whitelist.add_peer(&b_id, None, None, None, 900).unwrap();
    whitelist.add_peer(&c_id, None, None, None, 900).unwrap();

    let mut manager = KeyDistributionManager::new(KeyDistributionConfig::default(), kp_a);
    // B announces C's identity: not a self-announcement, dropped
    let announcement = KeyDistributionMessage::KeyAnnouncement {
        peer_id: c_id.clone(),
        public_key: kp_c.public().encode_protobuf(),
        timestamp: 1000,
    };
    let envelope =
        SignedData::new(P2PMessage::KeyDistribution(announcement.clone()), &kp_b).unwrap();
    let r = manager.handle_message(&mut whitelist, &announcement, &envelope.signature, &b_id, 1000);
    assert!(r.is_none());
    assert!(whitelist.get_public_key(&c_id).is_none());
}

#[test]
fn test_whitelist_request_creation() {
    let keypair = identity::Keypair::generate_ed25519();
    let local_id = keypair.public().to_peer_id().to_string();
    let manager = KeyDistributionManager::new(KeyDistributionConfig::default(), keypair);
    let request = manager.create_whitelist_request(Some("me".to_string()), 55);
    match request {
        KeyDistributionMessage::WhitelistRequest { peer_id, public_key, name, timestamp } => {
            assert_eq!(peer_id, local_id);
            assert!(!public_key.is_empty());
            assert_eq!(name, Some("me".to_string()));
            assert_eq!(timestamp, 55);
        }
        _ => panic!("Expected WhitelistRequest"),
    }
}

#[test]
fn test_cleanup_evicts_old_entries() {
    let mut whitelist = PeerWhitelist::new();
    let peer_id = identity::Keypair::generate_ed25519().public().to_peer_id().to_string();
    whitelist.add_peer(&peer_id, None, None, None, 1000).unwrap();

    let keypair = identity::Keypair::generate_ed25519();
    let mut manager = KeyDistributionManager::new(KeyDistributionConfig::default(), keypair);

    // a pending request is registered, then aged out by cleanup
    assert_eq!(manager.request_missing_keys(&whitelist, 1000).len(), 1);
    assert_eq!(manager.request_missing_keys(&whitelist, 1100).len(), 0);
    manager.cleanup(1000 + 4000);
    assert_eq!(manager.request_missing_keys(&whitelist, 1000 + 4001).len(), 1);
}

#[test]
fn test_whitelist_request_screening() {
    let kp_a = identity::Keypair::generate_ed25519();
    let kp_b = identity::Keypair::generate_ed25519();
    let b_id = kp_b.public().to_peer_id().to_string();
    let b_pk = kp_b.public().encode_protobuf();

    let mut whitelist = PeerWhitelist::new();
    let config = KeyDistributionConfig { accept_whitelist_requests: true, ..KeyDistributionConfig::default() };
    let mut manager = KeyDistributionManager::new(config, kp_a);

    let request = KeyDistributionMessage::WhitelistRequest {
        peer_id: b_id.clone(),
        public_key: b_pk.clone(),
        name: Some("Newcomer".to_string()),
        timestamp: 1000,
    };
    let envelope =
        SignedData::new(P2PMessage::KeyDistribution(request.clone()), &kp_b).unwrap();

    // a valid self-request is recorded once, never self-added
    let r = manager.handle_message(&mut whitelist, &request, &envelope.signature, &b_id, 1000);
    assert!(r.is_none());
    assert!(whitelist.list_peers().is_empty());
    let candidates = manager.take_whitelist_requests();
    assert_eq!(candidates.len(), 1);
    assert_eq!(candidates[0].peer_id, b_id);
    assert_eq!(candidates[0].public_key, b_pk);
    assert_eq!(candidates[0].name, Some("Newcomer".to_string()));

    // a replay is dropped before screening
    let r2 = manager.handle_message(&mut whitelist, &request, &envelope.signature, &b_id, 1500);
    assert!(r2.is_none());
    assert!(manager.take_whitelist_requests().is_empty());
}

#[test]
fn test_whitelist_request_switch_off() {
    let kp_a = identity::Keypair::generate_ed25519();
    let kp_b = identity::Keypair::generate_ed25519();
    let b_id = kp_b.public().to_peer_id().to_string();

    let mut whitelist = PeerWhitelist::new();
    // the conservative default refuses whitelist requests
    let mut manager = KeyDistributionManager::new(KeyDistributionConfig::default(), kp_a);

    let request = KeyDistributionMessage::WhitelistRequest {
        peer_id: b_id.clone(),
        public_key: kp_b.public().encode_protobuf(),
        name: None,
        timestamp: 1000,
    };
    let envelope =
        SignedData::new(P2PMessage::KeyDistribution(request.clone()), &kp_b).unwrap();
    let r = manager.handle_message(&mut whitelist, &request, &envelope.signature, &b_id, 1000);
    assert!(r.is_none());
    assert!(manager.take_whitelist_requests().is_empty());
}

#[test]
fn test_whitelist_request_for_other_peer_refused() {
    let kp_a = identity::Keypair::generate_ed25519();
    let kp_b = identity::Keypair::generate_ed25519();
    let kp_c = identity::Keypair::generate_ed25519();
    let b_id = kp_b.public().to_peer_id().to_string();
    let c_id = kp_c.public().to_peer_id().to_string();

    let config = KeyDistributionConfig { accept_whitelist_requests: true, ..KeyDistributionConfig::default() };
    let manager = KeyDistributionManager::new(config, kp_a);

    // sender asks for someone else: refused by the screen
    assert!(manager
        .screen_whitelist_request(&c_id, &kp_c.public().encode_protobuf(), None, &b_id)
        .is_none());
    // a key that does not derive to the claimed identity: refused
    assert!(manager
        .screen_whitelist_request(&b_id, &kp_c.public().encode_protobuf(), None, &b_id)
        .is_none());
    // a proper self-request passes
    assert!(manager
        .screen_whitelist_request(&b_id, &kp_b.public().encode_protobuf(), None, &b_id)
        .is_some());
}
