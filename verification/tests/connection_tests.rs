use p2p_sync::connection_manager::ConnectionManager;
use p2p_sync::security::{AccessControl, SecurityConfig};

fn create_test_connection_manager() -> ConnectionManager {
    let security_config = SecurityConfig::default();
    let access_control = AccessControl::new(security_config);
    ConnectionManager::new(access_control)
}

fn create_test_peer_id() -> String {
    libp2p::identity::Keypair::generate_ed25519().public().to_peer_id().to_string()
}

#[test]
fn test_new_connection_manager() {
    let manager = create_test_connection_manager();
    assert_eq!(manager.get_connection_count(), 0);
}

#[test]
fn test_handle_incoming_connection_success() {
    let mut manager = create_test_connection_manager();
    let peer_id = create_test_peer_id();
    let remote_addr = "127.0.0.1";

    let result = manager.handle_incoming_connection(&peer_id, remote_addr, None, 0);
    assert!(result.is_ok());
    assert_eq!(manager.get_connection_count(), 1);

    let connections = manager.get_active_connections();
    assert_eq!(connections[0], (peer_id, remote_addr.to_string()));
}

#[test]
fn test_handle_connection_closed() {
    let mut manager = create_test_connection_manager();
    let peer_id = create_test_peer_id();
    let remote_addr = "127.0.0.1";

    manager.handle_incoming_connection(&peer_id, remote_addr, None, 0).unwrap();
    assert_eq!(manager.get_connection_count(), 1);

    manager.handle_connection_closed(&peer_id);
    assert_eq!(manager.get_connection_count(), 0);
}

#[test]
fn test_handle_connection_closed_nonexistent() {
    let mut manager = create_test_connection_manager();
    let peer_id = create_test_peer_id();

    manager.handle_connection_closed(&peer_id);
    assert_eq!(manager.get_connection_count(), 0);
}

#[test]
fn test_multiple_connections() {
    let mut manager = create_test_connection_manager();
    let mut peer_ids = Vec::new();
    let mut addrs = Vec::new();

    for i in 0..5 {
        let peer_id = create_test_peer_id();
        let addr = format!("192.168.1.{}", i);
        manager.handle_incoming_connection(&peer_id, &addr, None, 0).unwrap();
        peer_ids.push(peer_id);
        addrs.push(addr);
    }

    assert_eq!(manager.get_connection_count(), 5);

    let connections = manager.get_active_connections();
    for (peer_id, addr) in peer_ids.iter().zip(addrs.iter()) {
        assert!(connections.contains(&(peer_id.clone(), addr.clone())));
    }
}

#[test]
fn test_connection_limit() {
    let mut security_config = SecurityConfig::default();
    security_config.max_connections_per_ip = 2;
    let access_control = AccessControl::new(security_config);
    let mut manager = ConnectionManager::new(access_control);

    let remote_addr = "192.168.1.1";

    let peer1 = create_test_peer_id();
    let peer2 = create_test_peer_id();

    assert!(manager.handle_incoming_connection(&peer1, remote_addr, None, 0).is_ok());
    assert!(manager.handle_incoming_connection(&peer2, remote_addr, None, 0).is_ok());

    // Third connection should fail
    let peer3 = create_test_peer_id();
    assert!(manager.handle_incoming_connection(&peer3, remote_addr, None, 0).is_err());

    // After closing one, a new connection should succeed
    manager.handle_connection_closed(&peer1);
    assert!(manager.handle_incoming_connection(&peer3, remote_addr, None, 0).is_ok());
}

#[test]
fn test_concurrent_operations() {
    // Ten admissions from distinct addresses, each closed again
    let mut manager = create_test_connection_manager();
    for i in 0..10 {
        let peer_id = create_test_peer_id();
        let addr = format!("10.0.0.{}", i);
        manager.handle_incoming_connection(&peer_id, &addr, None, 0).unwrap();
        manager.handle_connection_closed(&peer_id);
    }
    assert_eq!(manager.get_connection_count(), 0);
}
