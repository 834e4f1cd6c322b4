use projecta::plugins::{
    CalculatorPlugin, EnhancedPluginManager, FileReaderPlugin, GreeterPlugin, LoggingPlugin, Plugin,
    PluginConfig, PluginManager, PluginMetadata, PluginWithLifecycle,
};

#[test]
fn test_static_dispatch() {
    let greeter = GreeterPlugin {
        greeting: "Test".to_string(),
    };
    assert_eq!(greeter.name(), "Greeter");
    assert_eq!(greeter.version(), "1.0.0");
    assert_eq!(greeter.execute().unwrap(), "Test");

    let calculator = CalculatorPlugin;
    assert!(calculator.execute().unwrap().contains('='));
}

#[test]
fn test_heterogeneous_collection() {
    let plugins: Vec<Box<dyn Plugin>> = vec![
        Box::new(GreeterPlugin {
            greeting: "Hello".to_string(),
        }),
        Box::new(CalculatorPlugin),
        Box::new(FileReaderPlugin {
            path: "input.txt".to_string(),
        }),
    ];
    assert_eq!(plugins.len(), 3);
    for plugin in plugins {
        assert!(plugin.execute().is_ok());
    }
}

#[test]
fn test_plugin_manager() {
    let mut manager = PluginManager::new();
    manager.register(Box::new(CalculatorPlugin));
    assert!(manager.get_plugin("Calculator").is_some());
    assert!(manager.get_plugin("Missing").is_none());
}

#[test]
fn test_plugin_config() {
    let mut config = PluginConfig::new();
    config.set("k".to_string(), "v".to_string());
    assert_eq!(config.get("k"), Some("v"));
    assert!(config.get("missing").is_none());
}

#[test]
fn test_logging_plugin_lifecycle() {
    let mut plugin = LoggingPlugin::new();
    assert!(!plugin.initialized);
    assert_eq!(plugin.version(), "2.0.0");

    let mut config = PluginConfig::new();
    config.set("log_level".to_string(), "TRACE".to_string());
    plugin.initialize(&config).unwrap();
    assert!(plugin.initialized);
    assert_eq!(plugin.log_level, "TRACE");

    assert!(plugin.execute().unwrap().contains("TRACE"));
    plugin.cleanup().unwrap();
    assert!(!plugin.initialized);
}

#[test]
fn test_enhanced_manager() {
    let mut manager = EnhancedPluginManager::new();
    let config = PluginConfig::new();
    manager
        .register_and_init(Box::new(LoggingPlugin::new()), &config)
        .unwrap();
    assert!(manager.execute_plugin("Logger").is_ok());
    let errors = manager.shutdown();
    assert!(errors.is_empty());
    assert_eq!(manager.plugins.len(), 0);
}

#[test]
fn test_metadata_trait() {
    let plugin = LoggingPlugin::new();
    assert_eq!(plugin.author(), "Plugin Team");
    assert!(plugin.description().contains("logging"));
    assert!(plugin.dependencies().is_empty());
}

#[test]
fn test_plugin_outputs_and_missing_plugin() {
    let calculator = CalculatorPlugin;
    assert_eq!(calculator.execute().unwrap(), "2 + 2 = 4");
    let reader = FileReaderPlugin { path: "data.txt".to_string() };
    assert_eq!(reader.execute().unwrap(), "Read content from 'data.txt': <simulated>");
    let manager = EnhancedPluginManager::new();
    assert_eq!(manager.execute_plugin("Nope"), Err("Plugin 'Nope' not found".to_string()));
    let plugin = LoggingPlugin::new();
    assert_eq!(plugin.execute(), Err("Plugin not initialized".to_string()));
}

#[test]
fn test_config_overwrite_keeps_one_value() {
    let mut config = PluginConfig::new();
    config.set("a".to_string(), "1".to_string());
    config.set("b".to_string(), "2".to_string());
    config.set("a".to_string(), "3".to_string());
    assert_eq!(config.get("a"), Some("3"));
    assert_eq!(config.get("b"), Some("2"));
}
