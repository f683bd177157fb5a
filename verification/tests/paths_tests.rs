use playa::paths::{config_file, data_file, join_path, PathConfig};

#[test]
fn test_config_file_with_custom_dir() {
    let config = PathConfig { config_dir: Some("/custom".to_string()), local_dir: None };
    let path = config_file("test.json", &config);
    assert_eq!(path, "/custom/test.json");
}

#[test]
fn test_data_file_with_custom_dir() {
    let config = PathConfig { config_dir: Some("/custom".to_string()), local_dir: None };
    let path = data_file("cache.json", &config);
    assert_eq!(path, "/custom/cache.json");
}

#[test]
fn test_config_file_uses_platform_defaults() {
    let config = PathConfig { config_dir: None, local_dir: None };
    let path = config_file("test.json", &config);
    assert!(path.contains("playa"));
    assert!(path.contains("test.json"));
}

#[test]
fn test_show_actual_paths() {
    println!("\n=== Platform-specific paths (no local files) ===");
    let config = PathConfig { config_dir: None, local_dir: None };
    let cfg_path = config_file("playa.json", &config);
    let cache_path = data_file("playa_cache.json", &config);
    let log_path = data_file("playa.log", &config);
    println!("Config file: {}", cfg_path);
    println!("Cache file:  {}", cache_path);
    println!("Log file:    {}", log_path);
    println!("\n=== With custom directory ===");
    let custom_config = PathConfig { config_dir: Some("/tmp/playa-test".to_string()), local_dir: None };
    println!("Config file: {}", config_file("playa.json", &custom_config));
    println!("Cache file:  {}", data_file("playa_cache.json", &custom_config));
    println!("Log file:    {}", data_file("playa.log", &custom_config));
}

#[test]
fn local_dir_wins_over_platform() {
    let config = PathConfig { config_dir: None, local_dir: Some("/work/shots".to_string()) };
    assert_eq!(config_file("playa.json", &config), "/work/shots/playa.json");
    assert_eq!(data_file("playa.log", &config), "/work/shots/playa.log");
    let both = PathConfig { config_dir: Some("/c".to_string()), local_dir: Some("/l".to_string()) };
    assert_eq!(config_file("x", &both), "/c/x");
}

#[test]
fn join_rules() {
    assert_eq!(join_path("/a", "b"), "/a/b");
    assert_eq!(join_path("/a/", "b"), "/a/b");
    assert_eq!(join_path("", "b"), "b");
    assert_eq!(join_path("/a", "/b"), "/b");
}
