use libp2p::identity;
use p2p_sync::codec::{decode_envelope, encode_envelope};
use p2p_sync::crypto::{SignedData, SignedSyncMessage, SyncOperation};
use p2p_sync::sync::{P2PMessage, SyncMessage};

fn test_payload(message: &str, value: i64) -> P2PMessage {
    P2PMessage::Sync(SyncMessage::Put {
        key: message.to_string(),
        value: value.to_string(),
        timestamp: value,
    })
}

#[test]
fn test_sign_and_verify() {
    let keypair = identity::Keypair::generate_ed25519();
    let data = test_payload("Hello, world!", 42);

    let signed = SignedData::new(data, &keypair).unwrap();
    assert!(signed.verify(&keypair));

    // Verify with wrong keypair should fail
    let wrong_keypair = identity::Keypair::generate_ed25519();
    assert!(!signed.verify(&wrong_keypair));
}

#[test]
fn test_sign_and_verify_with_public_key() {
    let keypair = identity::Keypair::generate_ed25519();
    let public_key = keypair.public().encode_protobuf();

    let data = test_payload("Test", 123);
    let signed = SignedData::new(data, &keypair).unwrap();
    assert!(signed.verify_with_public_key(&public_key));
}

#[test]
fn test_tampered_data() {
    let keypair = identity::Keypair::generate_ed25519();
    let data = test_payload("Original", 100);

    let mut signed = SignedData::new(data, &keypair).unwrap();

    // Tamper with the data
    signed.data = test_payload("Original", 200);

    // Verification should fail
    assert!(!signed.verify(&keypair));
}

#[test]
fn test_sync_message_conversion() {
    let put_msg = SyncMessage::Put {
        key: "test_key".to_string(),
        value: "test_value".to_string(),
        timestamp: 1000,
    };

    let signed_msg: SignedSyncMessage = put_msg.into();
    assert_eq!(signed_msg.key, "test_key");
    assert_eq!(signed_msg.value, Some("test_value".to_string()));
    assert!(matches!(signed_msg.operation, SyncOperation::Put));

    let converted_back: SyncMessage = signed_msg.into();
    match converted_back {
        SyncMessage::Put { key, value, .. } => {
            assert_eq!(key, "test_key");
            assert_eq!(value, "test_value");
        }
        _ => panic!("Expected Put message"),
    }

    // the delete shape round-trips too
    let del = SyncMessage::Delete { key: "gone".to_string(), timestamp: 7 };
    let wire: SignedSyncMessage = del.into();
    assert!(wire.value.is_none());
    match wire.to_sync() {
        SyncMessage::Delete { key, timestamp } => {
            assert_eq!(key, "gone");
            assert_eq!(timestamp, 7);
        }
        _ => panic!("Expected Delete message"),
    }
}

#[test]
fn test_sign_and_verify_message() {
    let keypair = identity::Keypair::generate_ed25519();
    let message = test_payload("Hello, P2P!", 42);

    let signed = SignedData::new(message, &keypair).unwrap();

    // Verify with correct keypair
    assert!(signed.verify(&keypair));

    // Verify with public key
    let public_key = keypair.public().encode_protobuf();
    assert!(signed.verify_with_public_key(&public_key));

    // Verify with wrong keypair should fail
    let wrong_keypair = identity::Keypair::generate_ed25519();
    assert!(!signed.verify(&wrong_keypair));
}

#[test]
fn test_signed_sync_message() {
    let keypair = identity::Keypair::generate_ed25519();
    let sync_msg = P2PMessage::Sync(SyncMessage::Put {
        key: "test_key".to_string(),
        value: "test_value".to_string(),
        timestamp: 1000,
    });

    // Sign, serialize to the wire form, and read it back
    let signed = SignedData::new(sync_msg, &keypair).unwrap();
    let wire = encode_envelope(&signed);
    let deserialized = decode_envelope(&wire).unwrap();

    // Verify the deserialized message
    assert!(deserialized.verify(&keypair));
    match &deserialized.data {
        P2PMessage::Sync(SyncMessage::Put { key, value, .. }) => {
            assert_eq!(key, "test_key");
            assert_eq!(value, "test_value");
        }
        _ => panic!("Expected Put message"),
    }
}

#[test]
fn test_tampered_signature_detection() {
    let keypair = identity::Keypair::generate_ed25519();
    let message = test_payload("Original", 100);

    let mut signed = SignedData::new(message, &keypair).unwrap();

    // Tamper with the signature
    signed.signature[0] ^= 0xFF;

    // Verification should fail
    assert!(!signed.verify(&keypair));
}

#[test]
fn test_tampered_data_detection() {
    let keypair = identity::Keypair::generate_ed25519();
    let message = test_payload("Original", 100);

    let mut signed = SignedData::new(message, &keypair).unwrap();

    // Tamper with the data
    signed.data = test_payload("Original", 200);

    // Verification should fail
    assert!(!signed.verify(&keypair));
}

#[test]
fn test_signer_mismatch_rejected_before_crypto() {
    let keypair = identity::Keypair::generate_ed25519();
    let other = identity::Keypair::generate_ed25519();
    let message = test_payload("Original", 100);

    let mut signed = SignedData::new(message, &keypair).unwrap();
    // Claim another signer: the identity check alone must reject
    signed.signer = other.public().to_peer_id().to_string();
    assert!(!signed.verify(&keypair));
    assert!(!signed.verify_with_public_key(&keypair.public().encode_protobuf()));
}
