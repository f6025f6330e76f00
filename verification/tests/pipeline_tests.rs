use libp2p::identity;
use p2p_sync::codec::encode_envelope;
use p2p_sync::connection_manager::ConnectionManager;
use p2p_sync::crypto::SignedData;
use p2p_sync::key_distribution::{KeyDistributionConfig, KeyDistributionManager};
use p2p_sync::pipeline::{handle_inbound_message, DropReason, InboundOutcome};
use p2p_sync::security::{AccessControl, RateLimiter, SecurityConfig};
use p2p_sync::storage::Storage;
use p2p_sync::sync::{P2PMessage, SyncMessage};
use p2p_sync::whitelist::PeerWhitelist;

struct Node {
    rate_limiter: RateLimiter,
    registry: ConnectionManager,
    whitelist: PeerWhitelist,
    store: Storage,
    key_dist: KeyDistributionManager,
    config: SecurityConfig,
}

fn make_node() -> Node {
    let keypair = identity::Keypair::generate_ed25519();
    Node {
        rate_limiter: RateLimiter::new(SecurityConfig::default()),
        registry: ConnectionManager::new(AccessControl::new(SecurityConfig::default())),
        whitelist: PeerWhitelist::new(),
        store: Storage::new(),
        key_dist: KeyDistributionManager::new(KeyDistributionConfig::default(), keypair),
        config: SecurityConfig::default(),
    }
}

fn deliver(node: &mut Node, sender: &str, payload: &Vec<u8>, now_ms: u64, now: i64) -> InboundOutcome {
    handle_inbound_message(
        &mut node.rate_limiter,
        &node.registry,
        &mut node.whitelist,
        &mut node.store,
        &mut node.key_dist,
        &node.config,
        sender,
        payload,
        now_ms,
        now,
    )
}

fn signed_put(keypair: &identity::Keypair, key: &str, value: &str, t: i64) -> Vec<u8> {
    let msg = P2PMessage::Sync(SyncMessage::Put {
        key: key.to_string(),
        value: value.to_string(),
        timestamp: t,
    });
    let envelope = SignedData::new(msg, keypair).unwrap();
    encode_envelope(&envelope)
}

fn signed_delete(keypair: &identity::Keypair, key: &str, t: i64) -> Vec<u8> {
    let msg = P2PMessage::Sync(SyncMessage::Delete { key: key.to_string(), timestamp: t });
    let envelope = SignedData::new(msg, keypair).unwrap();
    encode_envelope(&envelope)
}

fn register_peer(node: &mut Node, keypair: &identity::Keypair, ip: &str) -> String {
    let id = keypair.public().to_peer_id().to_string();
    node.registry.handle_incoming_connection(&id, ip, None, 0).unwrap();
    node.whitelist
        .add_peer(&id, None, Some(&keypair.public().encode_protobuf()), None, 0)
        .unwrap();
    id
}

#[test]
fn test_lww_put_then_older_put() {
    // Two puts on the same key: the older timestamp loses
    let mut node = make_node();
    let kp = identity::Keypair::generate_ed25519();
    let sender = register_peer(&mut node, &kp, "10.0.0.9");

    let first = signed_put(&kp, "x", "a", 100);
    let second = signed_put(&kp, "x", "b", 50);
    assert!(matches!(deliver(&mut node, &sender, &first, 1_000, 200), InboundOutcome::Applied));
    assert!(matches!(deliver(&mut node, &sender, &second, 3_000, 200), InboundOutcome::Applied));
    assert_eq!(node.store.get("x"), Some("a".to_string()));
}

#[test]
fn test_lww_delete_older_ignored() {
    let mut node = make_node();
    let kp = identity::Keypair::generate_ed25519();
    let sender = register_peer(&mut node, &kp, "10.0.0.9");

    let put = signed_put(&kp, "x", "a", 100);
    let del = signed_delete(&kp, "x", 50);
    assert!(matches!(deliver(&mut node, &sender, &put, 1_000, 200), InboundOutcome::Applied));
    assert!(matches!(deliver(&mut node, &sender, &del, 3_000, 200), InboundOutcome::Applied));
    assert_eq!(node.store.get("x"), Some("a".to_string()));
}

#[test]
fn test_lww_delete_newer_wins() {
    let mut node = make_node();
    let kp = identity::Keypair::generate_ed25519();
    let sender = register_peer(&mut node, &kp, "10.0.0.9");

    let put = signed_put(&kp, "x", "a", 100);
    let del = signed_delete(&kp, "x", 101);
    assert!(matches!(deliver(&mut node, &sender, &put, 1_000, 200), InboundOutcome::Applied));
    assert!(matches!(deliver(&mut node, &sender, &del, 3_000, 200), InboundOutcome::Applied));
    assert_eq!(node.store.get("x"), None);
}

#[test]
fn test_lww_convergence_out_of_order() {
    // Two replicas see the same puts in different orders; the strictly
    // newest write decides both states
    let mut a = Storage::new();
    let mut b = Storage::new();
    a.put_with_timestamp("k", "v1", 10);
    a.put_with_timestamp("k", "v2", 20);
    a.put_with_timestamp("k", "v3", 30);
    b.put_with_timestamp("k", "v2", 20);
    b.put_with_timestamp("k", "v1", 10);
    b.put_with_timestamp("k", "v3", 30);
    assert_eq!(a.get("k"), b.get("k"));
    assert_eq!(a.get("k"), Some("v3".to_string()));
}

#[test]
fn test_pipeline_rejects_unknown_sender() {
    let mut node = make_node();
    let kp = identity::Keypair::generate_ed25519();
    // whitelisted but never registered as a connection
    let id = kp.public().to_peer_id().to_string();
    node.whitelist.add_peer(&id, None, None, None, 0).unwrap();

    let payload = signed_put(&kp, "x", "a", 100);
    match deliver(&mut node, &id, &payload, 1_000, 200) {
        InboundOutcome::Dropped(DropReason::UnknownSender) => {}
        other => panic!("expected UnknownSender, got {:?}", other),
    }
}

#[test]
fn test_pipeline_rejects_untrusted_signer() {
    let mut node = make_node();
    let kp = identity::Keypair::generate_ed25519();
    let id = kp.public().to_peer_id().to_string();
    // registered connection, but not whitelisted
    node.registry.handle_incoming_connection(&id, "10.1.1.1", None, 0).unwrap();

    let payload = signed_put(&kp, "x", "a", 100);
    match deliver(&mut node, &id, &payload, 1_000, 200) {
        InboundOutcome::Dropped(DropReason::NotTrusted) => {}
        other => panic!("expected NotTrusted, got {:?}", other),
    }
}

#[test]
fn test_pipeline_rejects_bad_signature() {
    let mut node = make_node();
    let kp = identity::Keypair::generate_ed25519();
    let sender = register_peer(&mut node, &kp, "10.0.0.9");

    let msg = P2PMessage::Sync(SyncMessage::Put {
        key: "x".to_string(),
        value: "a".to_string(),
        timestamp: 100,
    });
    let mut envelope = SignedData::new(msg, &kp).unwrap();
    envelope.signature[0] ^= 0xFF;
    let payload = encode_envelope(&envelope);

    match deliver(&mut node, &sender, &payload, 1_000, 200) {
        InboundOutcome::Dropped(DropReason::BadSignature) => {}
        other => panic!("expected BadSignature, got {:?}", other),
    }
    assert_eq!(node.store.get("x"), None);
}

#[test]
fn test_pipeline_accepts_relayed_envelope() {
    // Gossip relays through an intermediate peer: the transport sender
    // differs from the (trusted, verified) envelope signer
    let mut node = make_node();
    let kp_signer = identity::Keypair::generate_ed25519();
    let kp_relay = identity::Keypair::generate_ed25519();
    let relay = register_peer(&mut node, &kp_relay, "10.0.0.7");
    let signer_id = kp_signer.public().to_peer_id().to_string();
    node.whitelist
        .add_peer(&signer_id, None, Some(&kp_signer.public().encode_protobuf()), None, 0)
        .unwrap();

    let payload = signed_put(&kp_signer, "k", "v", 100);
    assert!(matches!(deliver(&mut node, &relay, &payload, 1_000, 200), InboundOutcome::Applied));
    assert_eq!(node.store.get("k"), Some("v".to_string()));
}

#[test]
fn test_pipeline_rejects_malformed_payload() {
    let mut node = make_node();
    let kp = identity::Keypair::generate_ed25519();
    let sender = register_peer(&mut node, &kp, "10.0.0.9");

    let garbage = vec![1u8, 2, 3];
    match deliver(&mut node, &sender, &garbage, 1_000, 200) {
        InboundOutcome::Dropped(DropReason::MalformedEnvelope) => {}
        other => panic!("expected MalformedEnvelope, got {:?}", other),
    }
}

#[test]
fn test_pipeline_rejects_invalid_key() {
    let mut node = make_node();
    let kp = identity::Keypair::generate_ed25519();
    let sender = register_peer(&mut node, &kp, "10.0.0.9");

    let payload = signed_put(&kp, "../escape", "v", 100);
    match deliver(&mut node, &sender, &payload, 1_000, 200) {
        InboundOutcome::Dropped(DropReason::InvalidKey) => {}
        other => panic!("expected InvalidKey, got {:?}", other),
    }
    assert_eq!(node.store.list().len(), 0);
}

#[test]
fn test_rate_limit_scenario() {
    // Two messages in quick succession: the first passes, the second
    // breaks the burst allowance
    let mut node = make_node();
    node.config.rate_limit_per_minute = 2;
    node.config.rate_limit_burst = 1;
    node.rate_limiter = RateLimiter::new(SecurityConfig {
        rate_limit_per_minute: 2,
        rate_limit_burst: 1,
        ..SecurityConfig::default()
    });
    let kp = identity::Keypair::generate_ed25519();
    let sender = register_peer(&mut node, &kp, "10.0.0.9");

    let m1 = signed_put(&kp, "a", "1", 100);
    let m2 = signed_put(&kp, "b", "2", 100);
    assert!(matches!(deliver(&mut node, &sender, &m1, 5_000, 200), InboundOutcome::Applied));
    match deliver(&mut node, &sender, &m2, 5_100, 200) {
        InboundOutcome::Dropped(DropReason::RateLimited) => {}
        other => panic!("expected RateLimited, got {:?}", other),
    }
    assert_eq!(node.store.get("b"), None);
}

#[test]
fn test_connection_cap_scenario() {
    let mut manager = ConnectionManager::new(AccessControl::new(SecurityConfig {
        max_connections_per_ip: 2,
        ..SecurityConfig::default()
    }));
    let p1 = identity::Keypair::generate_ed25519().public().to_peer_id().to_string();
    let p2 = identity::Keypair::generate_ed25519().public().to_peer_id().to_string();
    let p3 = identity::Keypair::generate_ed25519().public().to_peer_id().to_string();

    assert!(manager.handle_incoming_connection(&p1, "10.0.0.1", None, 0).is_ok());
    assert!(manager.handle_incoming_connection(&p2, "10.0.0.1", None, 0).is_ok());
    assert!(manager.handle_incoming_connection(&p3, "10.0.0.1", None, 0).is_err());

    manager.handle_connection_closed(&p1);
    assert!(manager.handle_incoming_connection(&p3, "10.0.0.1", None, 0).is_ok());
}

#[test]
fn test_key_protocol_response_through_pipeline() {
    // A whitelisted peer asks the node for its key through the pipeline;
    // the reply carries the node's own key
    let mut node = make_node();
    let kp_b = identity::Keypair::generate_ed25519();
    let b_id = register_peer(&mut node, &kp_b, "10.0.0.2");

    let request = p2p_sync::key_distribution::KeyDistributionMessage::KeyRequest {
        requestor: b_id.clone(),
        target: node.key_dist.local_peer_id_str().to_string(),
        timestamp: 100,
    };
    let envelope =
        SignedData::new(P2PMessage::KeyDistribution(request), &kp_b).unwrap();
    let payload = encode_envelope(&envelope);

    match deliver(&mut node, &b_id, &payload, 1_000, 200) {
        InboundOutcome::KeyHandled(Some(
            p2p_sync::key_distribution::KeyDistributionMessage::KeyResponse { target, .. },
        )) => {
            assert_eq!(&target, node.key_dist.local_peer_id_str());
        }
        other => panic!("expected a key response, got {:?}", other),
    }
}

#[test]
fn test_pipeline_rejects_invalid_signer_string() {
    let mut node = make_node();
    let kp = identity::Keypair::generate_ed25519();
    let sender = register_peer(&mut node, &kp, "10.0.0.9");

    // a well-formed envelope whose declared signer is no peer identity
    let msg = P2PMessage::Sync(SyncMessage::Put {
        key: "x".to_string(),
        value: "a".to_string(),
        timestamp: 100,
    });
    let mut envelope = SignedData::new(msg, &kp).unwrap();
    envelope.signer = "not a peer identity".to_string();
    let payload = encode_envelope(&envelope);

    match deliver(&mut node, &sender, &payload, 1_000, 200) {
        InboundOutcome::Dropped(DropReason::InvalidSigner) => {}
        other => panic!("expected InvalidSigner, got {:?}", other),
    }
}

#[test]
fn test_pipeline_rejects_oversized_payload() {
    let mut node = make_node();
    node.config.max_message_size = 64;
    let kp = identity::Keypair::generate_ed25519();
    let sender = register_peer(&mut node, &kp, "10.0.0.9");

    let payload = signed_put(&kp, "key", &"v".repeat(500), 100);
    match deliver(&mut node, &sender, &payload, 1_000, 200) {
        InboundOutcome::Dropped(DropReason::PayloadTooLarge) => {}
        other => panic!("expected PayloadTooLarge, got {:?}", other),
    }
}
