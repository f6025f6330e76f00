use p2p_sync::security::{
    sanitize_input, validate_key, validate_value, AccessControl, RateLimiter, SecurityConfig,
    ValidationError,
};

#[test]
fn test_security_config_default() {
    let config = SecurityConfig::default();
    assert_eq!(config.rate_limit_per_minute, 60);
    assert_eq!(config.rate_limit_burst, 10);
    assert_eq!(config.max_message_size, 1024 * 1024);
    assert_eq!(config.max_key_length, 256);
    assert_eq!(config.max_value_length, 1024 * 64);
    assert_eq!(config.max_connections_per_ip, 10);
    assert!(config.blocked_peers.is_empty());
    assert!(config.allowed_peers.is_none());
}

#[test]
fn test_input_validation() {
    // Valid inputs
    assert!(validate_key("valid_key", 256).is_ok());
    assert!(validate_value("valid_value", 1024).is_ok());

    // Invalid inputs
    assert!(validate_key("", 256).is_err()); // empty key
    assert!(validate_key(&"x".repeat(300), 256).is_err()); // too long
    assert!(validate_key("../path", 256).is_err()); // path traversal
    assert!(validate_key("key\x00", 256).is_err()); // control character

    assert!(validate_value(&"x".repeat(2000), 1024).is_err()); // too long
}

#[test]
fn test_validation_error_variants() {
    assert_eq!(validate_key("", 256), Err(ValidationError::EmptyKey));
    assert_eq!(validate_key(&"x".repeat(300), 256), Err(ValidationError::KeyTooLong));
    assert_eq!(validate_key("key\x00", 256), Err(ValidationError::ControlCharacter));
    assert_eq!(validate_key("../path", 256), Err(ValidationError::UnsafePath));
    assert_eq!(validate_key("a//b", 256), Err(ValidationError::UnsafePath));
    assert_eq!(validate_key("/lead", 256), Err(ValidationError::UnsafePath));
    assert_eq!(validate_value(&"x".repeat(2000), 1024), Err(ValidationError::ValueTooLong));
    assert!(validate_key("tab\tand\nnewline", 256).is_ok());
}

#[test]
fn test_sanitize_input_filters_and_caps() {
    assert_eq!(sanitize_input("plain"), "plain");
    assert_eq!(sanitize_input("a\x00b\x07c"), "abc");
    assert_eq!(sanitize_input("keep\ttab\nand newline"), "keep\ttab\nand newline");
    let long = "y".repeat(3000);
    assert_eq!(sanitize_input(&long).chars().count(), 1024);
}

#[test]
fn test_rate_limiter() {
    let mut config = SecurityConfig::default();
    config.rate_limit_per_minute = 2;
    config.rate_limit_burst = 1;

    let mut rate_limiter = RateLimiter::new(config);
    let peer_id = libp2p::identity::Keypair::generate_ed25519()
        .public()
        .to_peer_id()
        .to_string();

    // First request should be allowed
    assert!(rate_limiter.check_rate_limit(&peer_id, 10_000).is_ok());

    // Second request should hit burst limit
    assert!(rate_limiter.check_rate_limit(&peer_id, 10_100).is_err());
}

#[test]
fn test_rate_limiter_window_slides() {
    let mut config = SecurityConfig::default();
    config.rate_limit_per_minute = 2;
    config.rate_limit_burst = 2;

    let mut rl = RateLimiter::new(config);
    let peer = "peer".to_string();
    assert!(rl.check_rate_limit(&peer, 1_000).is_ok());
    assert!(rl.check_rate_limit(&peer, 10_000).is_ok());
    // within the same minute, the sustained limit refuses
    assert!(rl.check_rate_limit(&peer, 20_000).is_err());
    // a minute later, both instants have aged out
    assert!(rl.check_rate_limit(&peer, 80_000).is_ok());
}

#[test]
fn test_access_control() {
    let keypair = libp2p::identity::Keypair::generate_ed25519();
    let peer_str = keypair.public().to_peer_id().to_string();

    // Test blocked peer
    let mut config = SecurityConfig::default();
    config.blocked_peers.push(peer_str.clone());
    let access_control = AccessControl::new(config);
    assert!(access_control.check_peer_allowed(&peer_str, None, 0).is_err());

    // Test allowed peer with a static allowed list
    let mut config = SecurityConfig::default();
    config.allowed_peers = Some(vec![peer_str.clone()]);
    let access_control = AccessControl::new(config);
    assert!(access_control.check_peer_allowed(&peer_str, None, 0).is_ok());

    // A peer outside the static allowed list is refused
    let mut config = SecurityConfig::default();
    config.allowed_peers = Some(Vec::new());
    let access_control = AccessControl::new(config);
    assert!(access_control.check_peer_allowed(&peer_str, None, 0).is_err());
}
