use trace_flatten::config::{Config, ConfigError};

#[test]
fn both_values_present() {
    let config = Config::new(Some("key".to_string()), Some("ws://node".to_string())).unwrap();
    assert_eq!(config.private_key, "key");
    assert_eq!(config.rpc, "ws://node");
}

#[test]
fn missing_private_key_is_fatal() {
    let err = Config::new(None, Some("ws://node".to_string())).unwrap_err();
    assert_eq!(err, ConfigError::MissingPrivateKey);
}

#[test]
fn missing_rpc_is_fatal() {
    let err = Config::new(Some("key".to_string()), None).unwrap_err();
    assert_eq!(err, ConfigError::MissingRpc);
}

#[test]
fn private_key_reported_first() {
    let err = Config::new(None, None).unwrap_err();
    assert_eq!(err, ConfigError::MissingPrivateKey);
}
