use p2p_sync::config::Config;

#[test]
fn test_config_defaults() {
    let config = Config::default();
    assert_eq!(config.port, 4001);
    assert!(config.bootstrap_peers.is_empty());
    assert!(config.data_dir.is_none());
    assert_eq!(config.security.rate_limit_per_minute, 60);
}
