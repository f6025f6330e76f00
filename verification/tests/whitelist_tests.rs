use libp2p::identity;
use p2p_sync::whitelist::{PeerWhitelist, WhitelistError};

fn random_peer_id() -> String {
    identity::Keypair::generate_ed25519().public().to_peer_id().to_string()
}

#[test]
fn test_whitelist_add_remove() {
    let mut whitelist = PeerWhitelist::new();
    let peer_id = random_peer_id();

    // Add peer
    whitelist.add_peer(&peer_id, Some("Test Peer".to_string()), None, None, 1000).unwrap();
    assert!(whitelist.is_whitelisted(&peer_id, 1000));

    // Remove peer
    whitelist.remove_peer(&peer_id);
    assert!(!whitelist.is_whitelisted(&peer_id, 1000));
}

#[test]
fn test_whitelist_expiration() {
    let mut whitelist = PeerWhitelist::new();
    let peer_id = random_peer_id();
    let now = 10_000;
    let expires_at = now - 3600; // Already expired

    whitelist.add_peer(&peer_id, None, None, Some(expires_at), now).unwrap();
    assert!(!whitelist.is_whitelisted(&peer_id, now));
}

#[test]
fn test_whitelist_list() {
    let mut whitelist = PeerWhitelist::new();
    let peer1 = random_peer_id();
    let peer2 = random_peer_id();

    whitelist.add_peer(&peer1, Some("Peer 1".to_string()), None, None, 1000).unwrap();
    whitelist.add_peer(&peer2, Some("Peer 2".to_string()), None, None, 1001).unwrap();

    let entries = whitelist.list_peers();
    assert_eq!(entries.len(), 2);
}

#[test]
fn test_whitelist_integration() {
    let mut whitelist = PeerWhitelist::new();
    let now = 1_000_000;

    let peer1 = random_peer_id();
    let peer2 = random_peer_id();
    let peer3 = random_peer_id();

    whitelist.add_peer(&peer1, Some("Node 1".to_string()), None, None, now).unwrap();
    whitelist
        .add_peer(&peer2, Some("Node 2".to_string()), None, Some(now + 24 * 3600), now)
        .unwrap();

    assert!(whitelist.is_whitelisted(&peer1, now));
    assert!(whitelist.is_whitelisted(&peer2, now));
    assert!(!whitelist.is_whitelisted(&peer3, now));

    let peers = whitelist.list_peers();
    assert_eq!(peers.len(), 2);

    whitelist.remove_peer(&peer1);
    assert!(!whitelist.is_whitelisted(&peer1, now));

    let expired_peer = random_peer_id();
    whitelist.add_peer(&expired_peer, None, None, Some(now - 3600), now).unwrap();
    assert!(!whitelist.is_whitelisted(&expired_peer, now));
}

#[test]
fn test_whitelist_with_public_key() {
    let mut whitelist = PeerWhitelist::new();

    let keypair = identity::Keypair::generate_ed25519();
    let peer_id = keypair.public().to_peer_id().to_string();
    let public_key = keypair.public().encode_protobuf();

    // Add peer with public key
    whitelist
        .add_peer(&peer_id, Some("Node with Key".to_string()), Some(&public_key), None, 1000)
        .unwrap();

    // Check peer is whitelisted
    assert!(whitelist.is_whitelisted(&peer_id, 1000));

    // Check public key can be retrieved
    let stored_key = whitelist.get_public_key(&peer_id);
    assert!(stored_key.is_some());
    assert_eq!(stored_key.unwrap(), public_key);

    // Test listing shows public key info
    let entries = whitelist.list_peers();
    assert_eq!(entries.len(), 1);
    assert!(entries[0].public_key.is_some());
}

#[test]
fn test_whitelist_rejects_mismatched_key() {
    let mut whitelist = PeerWhitelist::new();

    let keypair_a = identity::Keypair::generate_ed25519();
    let peer_b = random_peer_id();
    let key_a = keypair_a.public().encode_protobuf();

    // A key that does not derive to the claimed identity is refused
    let res = whitelist.add_peer(&peer_b, None, Some(&key_a), None, 1000);
    assert_eq!(res, Err(WhitelistError::KeyMismatch));
    assert_eq!(whitelist.list_peers().len(), 0);
}

#[test]
fn test_recommendation_rules() {
    let mut whitelist = PeerWhitelist::new();
    let now = 50_000;
    let w1 = random_peer_id();
    let x = random_peer_id();
    let stranger = random_peer_id();

    // a recommender must be whitelisted
    assert_eq!(
        whitelist.add_recommendation(&x, &stranger, None, now),
        Err(WhitelistError::RecommenderNotWhitelisted)
    );

    whitelist.add_peer(&w1, None, None, None, now).unwrap();

    // self-recommendation is refused
    assert_eq!(
        whitelist.add_recommendation(&w1, &w1, None, now),
        Err(WhitelistError::SelfRecommendation)
    );

    // a recommendation creates a visible but non-whitelisted row
    whitelist.add_recommendation(&x, &w1, None, now).unwrap();
    assert_eq!(whitelist.list_peers().len(), 2);
    assert!(!whitelist.is_whitelisted(&x, now));
    assert!(whitelist.is_trusted_by_chain(&x, now));

    // the same recommender is recorded once
    whitelist.add_recommendation(&x, &w1, None, now).unwrap();
    let entries = whitelist.list_peers();
    let row = entries.iter().find(|e| e.peer_id == x).unwrap();
    assert_eq!(row.recommendation_count, 1);
    assert_eq!(row.recommended_by, vec![w1.clone()]);
}

#[test]
fn test_whitelist_expiry_scenario() {
    // An expired row refuses trust but stays visible until the cache path
    // prunes it; the rebuilt cache leaves it out.
    let mut whitelist = PeerWhitelist::new();
    let now = 7_200;
    let p = random_peer_id();
    whitelist.add_peer(&p, None, None, Some(now - 3600), now).unwrap();
    assert!(!whitelist.is_whitelisted(&p, now));
    assert_eq!(whitelist.list_peers().len(), 1);
    whitelist.reload_cache(now);
    assert!(!whitelist.is_whitelisted(&p, now));
    assert_eq!(whitelist.list_peers().len(), 1);
}

#[test]
fn test_trust_chain_one_hop_only() {
    // X is vouched for by W1; Y is vouched for by X. One hop carries
    // trust, two hops never do.
    let mut whitelist = PeerWhitelist::new();
    let now = 1_000;
    let w1 = random_peer_id();
    let x = random_peer_id();

    whitelist.add_peer(&w1, None, None, None, now).unwrap();
    assert!(!whitelist.is_trusted_by_chain(&x, now));
    whitelist.add_recommendation(&x, &w1, None, now).unwrap();
    assert!(whitelist.is_trusted_by_chain(&x, now));

    // X is chain-trusted but not whitelisted, so X cannot vouch
    let y = random_peer_id();
    assert!(whitelist.add_recommendation(&y, &x, None, now).is_err());
    assert!(!whitelist.is_trusted_by_chain(&y, now));

    // removing W1 withdraws X's chain trust
    whitelist.remove_peer(&w1);
    assert!(!whitelist.is_trusted_by_chain(&x, now));
}
