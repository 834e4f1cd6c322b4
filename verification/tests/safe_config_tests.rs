use projecta::safe_config::{
    BasicServerConfig, Hostname, MaxConnections, Port, ServerConfig, Timeout,
};
use std::num::NonZeroU32;
use std::mem::size_of;
use std::time::Duration;

// Milestone 1 Tests
#[test]
fn test_basic_config() {
    let config = BasicServerConfig::new("localhost".to_string(), 8080, 30, 100);

    assert_eq!(config.host, "localhost");
    assert_eq!(config.port, 8080);
    assert_eq!(config.timeout_seconds, 30);
    assert_eq!(config.max_connections, 100);
}

#[test]
fn test_can_create_invalid_config() {
    // This compiles but is semantically wrong!
    let bad_config = BasicServerConfig::new("".to_string(), 0, 0, 0);

    // No way to prevent this at compile time
    assert_eq!(bad_config.port, 0);
    assert_eq!(bad_config.timeout_seconds, 0);
}

// Milestone 2 Tests
#[test]
fn test_port_validation() {
    assert!(Port::new(8080).is_ok());
    assert!(Port::new(1).is_ok());
    assert!(Port::new(65535).is_ok());
    assert!(Port::new(0).is_err()); // Invalid port
}

#[test]
fn test_timeout_validation() {
    assert!(Timeout::from_secs(30).is_ok());
    assert!(Timeout::from_secs(1).is_ok());
    assert!(Timeout::from_secs(0).is_err()); // Zero timeout invalid
}

#[test]
fn test_max_connections() {
    assert!(MaxConnections::new(100).is_ok());
    assert!(MaxConnections::new(1).is_ok());
    assert!(MaxConnections::new(0).is_err()); // Zero connections invalid
}

#[test]
fn test_valid_config() {
    let config = ServerConfig::new(
        Hostname("localhost".to_string()),
        Port::new(8080).unwrap(),
        Timeout::from_secs(30).unwrap(),
        MaxConnections::new(100).unwrap(),
    );

    assert_eq!(config.port.get(), 8080);
    assert_eq!(config.timeout.as_duration().as_secs(), 30);
    assert_eq!(config.max_connections.get(), 100);
}

#[test]
fn test_newtype_validation() {
    assert!(Port::new(8080).is_ok());
    assert!(Port::new(0).is_err());
    assert!(Timeout::from_secs(30).is_ok());
    assert!(Timeout::from_secs(0).is_err());
    assert!(MaxConnections::new(100).is_ok());
    assert!(MaxConnections::new(0).is_err());
}

// Milestone 3 Tests
#[test]
fn test_builder_fluent_api() {
    let config = ServerConfig::builder()
        .host("localhost")
        .port(8080)
        .timeout_secs(30)
        .max_connections(100)
        .build()
        .unwrap();

    assert_eq!(*config.port, 8080); // Deref in action
    assert_eq!(config.timeout.as_duration().as_secs(), 30);
    assert_eq!(config.max_connections.get(), 100);
}

#[test]
fn test_builder_defaults() {
    let config = ServerConfig::builder().host("localhost").build().unwrap();

    // Should use default values
    assert_eq!(*config.port, 8080);
    assert_eq!(config.timeout.as_duration().as_secs(), 30);
    assert_eq!(config.max_connections.get(), 100);
}

#[test]
fn test_builder_validation_errors() {
    let result = ServerConfig::builder()
        .port(0) // Invalid
        .timeout_secs(0) // Invalid
        .build();

    assert!(result.is_err());
    let errors = result.unwrap_err();
    assert!(errors.len() >= 2); // At least port and timeout errors
    assert!(errors.iter().any(|e| e.contains("port")));
    assert!(errors.iter().any(|e| e.contains("timeout")));
}

#[test]
fn test_builder_missing_required() {
    let result = ServerConfig::builder().port(8080).build();

    assert!(result.is_err());
    let errors = result.unwrap_err();
    assert!(errors.iter().any(|e| e.contains("Host")));
}

#[test]
fn test_builder_empty_host() {
    let result = ServerConfig::builder().host("").build();

    assert!(result.is_err());
    let errors = result.unwrap_err();
    assert!(errors.iter().any(|e| e.contains("empty")));
}

#[test]
fn test_builder_success() {
    let config = ServerConfig::builder()
        .host("localhost")
        .port(8080)
        .timeout_secs(30)
        .max_connections(100)
        .build();

    assert!(config.is_ok());
}

#[test]
fn test_builder_multiple_errors() {
    let result = ServerConfig::builder()
        .port(0) // Invalid
        .timeout_secs(0) // Invalid
        .max_connections(0) // Invalid
        .build();

    assert!(result.is_err());
    let errors = result.unwrap_err();
    // Should have at least 4 errors: missing host, invalid port, timeout, max_connections
    assert!(errors.len() >= 3);
}

#[test]
fn test_deref_trait() {
    let port = Port::new(8080).unwrap();
    assert_eq!(*port, 8080);

    let timeout = Timeout::from_secs(30).unwrap();
    assert_eq!(timeout.as_secs(), 30);

    let max_conn = MaxConnections::new(100).unwrap();
    assert_eq!(max_conn.get(), 100);
}

#[test]
fn test_port_deref_comparison() {
    let port = Port::new(8080).unwrap();
    // Explicit deref for comparison
    assert!(*port > 1024);
    assert!(*port < 65535);
}

#[test]
fn test_nonzero_u32_size_optimization() {

    // Niche optimization: Option<NonZeroU32> is same size as NonZeroU32
    assert_eq!(size_of::<NonZeroU32>(), size_of::<Option<NonZeroU32>>());

    // Regular u32 needs extra space for Option discriminant
    assert!(size_of::<u32>() < size_of::<Option<u32>>());
}

#[test]
fn test_builder_with_string_types() {
    // Test that builder accepts &str, String, etc.
    let config1 = ServerConfig::builder().host("localhost").build().unwrap();
    assert_eq!(config1.host.as_str(), "localhost");

    let hostname = String::from("example.com");
    let config2 = ServerConfig::builder().host(&hostname).build().unwrap();
    assert_eq!(config2.host.as_str(), "example.com");
}

#[test]
fn complete_06_safe_config_test_zero_cost_abstraction() {

    // Newtypes have no runtime overhead
    assert_eq!(size_of::<Port>(), size_of::<u16>());
    assert_eq!(size_of::<Timeout>(), size_of::<Duration>());
    assert_eq!(size_of::<MaxConnections>(), size_of::<NonZeroU32>());
}

#[test]
fn test_config_clone() {
    let config = ServerConfig::builder()
        .host("localhost")
        .port(8080)
        .build()
        .unwrap();

    let config2 = config.clone();
    assert_eq!(*config.port, *config2.port);
    assert_eq!(config.host.as_str(), config2.host.as_str());
}

#[test]
fn test_builder_error_messages_in_order() {
    let errors = ServerConfig::builder().port(0).timeout_secs(0).max_connections(0).build().unwrap_err();
    assert_eq!(
        errors,
        vec![
            "Host is required".to_string(),
            "Invalid port: Port must be greater than 0".to_string(),
            "Invalid timeout: Timeout must be greater than 0 seconds".to_string(),
            "Invalid max_connections: Connection count must be greater than 0".to_string(),
        ]
    );
    let errors = ServerConfig::builder().host("").build().unwrap_err();
    assert_eq!(errors, vec!["Host cannot be empty".to_string()]);
}
