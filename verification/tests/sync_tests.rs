use p2p_sync::codec::{decode_message, encode_message, encode_sync};
use p2p_sync::key_distribution::KeyDistributionMessage;
use p2p_sync::sync::{P2PMessage, SyncMessage};

#[test]
fn test_sync_message_put_serialization() {
    let msg = P2PMessage::Sync(SyncMessage::Put {
        key: "test_key".to_string(),
        value: "test_value".to_string(),
        timestamp: 1000,
    });

    // Test serialization and deserialization
    let serialized = encode_message(&msg);
    let deserialized = decode_message(&serialized, 0).unwrap();

    match deserialized {
        P2PMessage::Sync(SyncMessage::Put { key, value, .. }) => {
            assert_eq!(key, "test_key");
            assert_eq!(value, "test_value");
        }
        _ => panic!("Expected Put message"),
    }
}

#[test]
fn test_sync_message_delete_serialization() {
    let msg = P2PMessage::Sync(SyncMessage::Delete {
        key: "test_key".to_string(),
        timestamp: 1000,
    });

    let serialized = encode_message(&msg);
    let deserialized = decode_message(&serialized, 0).unwrap();

    match deserialized {
        P2PMessage::Sync(SyncMessage::Delete { key, .. }) => {
            assert_eq!(key, "test_key");
        }
        _ => panic!("Expected Delete message"),
    }
}

#[test]
fn test_sync_message_bincode_serialization() {
    // The binary wire form must round-trip every field exactly
    let msg = P2PMessage::Sync(SyncMessage::Put {
        key: "test_key".to_string(),
        value: "test_value".to_string(),
        timestamp: -12345,
    });

    let encoded = encode_message(&msg);
    let decoded = decode_message(&encoded, 0).unwrap();

    match decoded {
        P2PMessage::Sync(SyncMessage::Put { key, value, timestamp }) => {
            assert_eq!(key, "test_key");
            assert_eq!(value, "test_value");
            assert_eq!(timestamp, -12345);
        }
        _ => panic!("Expected Put message"),
    }
}

#[test]
fn test_sync_message_clone() {
    let original = SyncMessage::Put {
        key: "test_key".to_string(),
        value: "test_value".to_string(),
        timestamp: 1000,
    };

    let cloned = original.clone();

    match (original, cloned) {
        (
            SyncMessage::Put { key: k1, value: v1, timestamp: t1 },
            SyncMessage::Put { key: k2, value: v2, timestamp: t2 },
        ) => {
            assert_eq!(k1, k2);
            assert_eq!(v1, v2);
            assert_eq!(t1, t2);
        }
        _ => panic!("Clone failed"),
    }
}

#[test]
fn test_sync_message_debug_format() {
    let msg = SyncMessage::Put {
        key: "test_key".to_string(),
        value: "test_value".to_string(),
        timestamp: 1000,
    };

    let debug_str = format!("{:?}", msg);
    assert!(debug_str.contains("Put"));
    assert!(debug_str.contains("test_key"));
    assert!(debug_str.contains("test_value"));
}

#[test]
fn test_key_distribution_round_trip() {
    let msg = P2PMessage::KeyDistribution(KeyDistributionMessage::TrustRecommendation {
        recommender: "peer-a".to_string(),
        recommended: "peer-b".to_string(),
        name: Some("label".to_string()),
        timestamp: 7,
    });
    let encoded = encode_message(&msg);
    let decoded = decode_message(&encoded, 0).unwrap();
    match decoded {
        P2PMessage::KeyDistribution(KeyDistributionMessage::TrustRecommendation {
            recommender,
            recommended,
            name,
            timestamp,
        }) => {
            assert_eq!(recommender, "peer-a");
            assert_eq!(recommended, "peer-b");
            assert_eq!(name, Some("label".to_string()));
            assert_eq!(timestamp, 7);
        }
        _ => panic!("Expected TrustRecommendation"),
    }
}

#[test]
fn test_decode_rejects_garbage() {
    let garbage = vec![9u8, 9, 9, 9];
    assert!(decode_message(&garbage, 0).is_none());
    let msg = SyncMessage::Put {
        key: "k".to_string(),
        value: "v".to_string(),
        timestamp: 1,
    };
    let mut bytes = encode_sync(&msg);
    bytes.push(0);
    // trailing garbage is refused: a sync record must fill the buffer
    assert!(decode_message(&bytes, 0).is_none());
}
