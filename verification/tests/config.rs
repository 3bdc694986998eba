use zippy::config::{Config, ConfigError};

#[test]
fn test_default_config() {
    let config = Config::default();
    assert!(config.validate().is_ok());
    assert_eq!(config.compression_level, 22);
    assert!(config.max_threads > 0);
}

#[test]
fn test_config_validation() {
    let mut config = Config::default();

    // Test invalid compression level
    config.compression_level = 0;
    assert!(config.validate().is_err());

    config.compression_level = 23;
    assert!(config.validate().is_err());

    // Test invalid threads
    config.compression_level = 10;
    config.max_threads = 0;
    assert!(config.validate().is_err());
}

fn valid_config() -> Config {
    Config {
        compression_level: 10,
        max_threads: 4,
        block_size: 65536,
        memory_limit: 1024,
        verbose: false,
    }
}

#[test]
fn default_config_has_documented_values() {
    let config = Config::default();
    assert_eq!(config.block_size, 65536);
    assert_eq!(config.memory_limit, 1024);
    assert!(!config.verbose);
}

#[test]
fn validate_names_each_setting_out_of_range() {
    let mut c = valid_config();
    c.compression_level = 0;
    assert_eq!(c.validate(), Err(ConfigError::CompressionLevel));
    let mut c = valid_config();
    c.max_threads = 1025;
    assert_eq!(c.validate(), Err(ConfigError::MaxThreads));
    let mut c = valid_config();
    c.block_size = 1023;
    assert_eq!(c.validate(), Err(ConfigError::BlockSize));
    let mut c = valid_config();
    c.block_size = 1024 * 1024 * 1024 + 1;
    assert_eq!(c.validate(), Err(ConfigError::BlockSize));
    let mut c = valid_config();
    c.memory_limit = 63;
    assert_eq!(c.validate(), Err(ConfigError::MemoryLimit));
    let mut c = valid_config();
    c.memory_limit = 64 * 1024 + 1;
    assert_eq!(c.validate(), Err(ConfigError::MemoryLimit));
}

#[test]
fn validate_accepts_the_ends_of_each_range() {
    let mut c = valid_config();
    c.compression_level = 1;
    c.max_threads = 1;
    c.block_size = 1024;
    c.memory_limit = 64;
    assert_eq!(c.validate(), Ok(()));
    c.compression_level = 22;
    c.max_threads = 1024;
    c.block_size = 1024 * 1024 * 1024;
    c.memory_limit = 64 * 1024;
    assert_eq!(c.validate(), Ok(()));
}

#[test]
fn validate_reports_the_first_error_in_order() {
    let mut c = valid_config();
    c.compression_level = 99;
    c.max_threads = 0;
    c.block_size = 0;
    c.memory_limit = 0;
    assert_eq!(c.validate(), Err(ConfigError::CompressionLevel));
    c.compression_level = 5;
    assert_eq!(c.validate(), Err(ConfigError::MaxThreads));
    c.max_threads = 2;
    assert_eq!(c.validate(), Err(ConfigError::BlockSize));
    c.block_size = 4096;
    assert_eq!(c.validate(), Err(ConfigError::MemoryLimit));
}

#[test]
fn config_error_messages() {
    assert_eq!(
        ConfigError::CompressionLevel.message(),
        "Compression level must be between 1 and 22"
    );
    assert_eq!(
        ConfigError::MaxThreads.message(),
        "Max threads must be between 1 and 1024"
    );
    assert_eq!(
        ConfigError::BlockSize.message(),
        "Block size must be between 1KB and 1GB"
    );
    assert_eq!(
        ConfigError::MemoryLimit.message(),
        "Memory limit must be between 64MB and 64GB"
    );
}

#[test]
fn merge_with_cli_takes_what_is_given() {
    let mut c = valid_config();
    c.merge_with_cli(Some(3), Some(8), true);
    assert_eq!(c.compression_level, 3);
    assert_eq!(c.max_threads, 8);
    assert!(c.verbose);
    assert_eq!(c.block_size, 65536);
    assert_eq!(c.memory_limit, 1024);
}

#[test]
fn merge_with_cli_keeps_what_is_not_given() {
    let mut c = valid_config();
    c.verbose = true;
    c.merge_with_cli(None, None, false);
    assert_eq!(c.compression_level, 10);
    assert_eq!(c.max_threads, 4);
    assert!(c.verbose);
}
