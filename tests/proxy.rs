use proxyctl_rs::{config, defaults};

#[test]
fn proxy_test_test_default_constants() {
    // Test that default constants are properly defined
    assert!(!defaults::default_no_proxy(None).is_empty());
    assert!(defaults::default_no_proxy(None).contains("localhost"));
    assert!(!defaults::default_wpad_url(None).is_empty());
    assert!(defaults::default_wpad_url(None).contains("wpad"));
}

#[test]
fn proxy_test_test_config_struct_defaults() {
    // Test the config struct defaults directly
    let config = config::AppConfig::default();
    assert_eq!(config.default_hosts_file, Some("hosts".to_string()));
    assert!(config.no_proxy.is_none());
    assert_eq!(config.enable_wpad_discovery, Some(true));
    assert_eq!(
        config.wpad_url,
        Some("http://wpad.local/wpad.dat".to_string())
    );
    assert!(config.proxy_settings.enable_http_proxy);
    assert!(config.proxy_settings.enable_https_proxy);
    assert!(config.proxy_settings.enable_no_proxy);
}

#[test]
fn proxy_test_test_proxy_settings_struct() {
    // Test proxy settings struct
    let settings = config::ProxySettings::default();
    assert!(settings.enable_http_proxy);
    assert!(settings.enable_https_proxy);
    assert!(settings.enable_ftp_proxy);
    assert!(settings.enable_no_proxy);
}

#[test]
fn proxy_test_test_combined_no_proxy_logic() {
    // Test that default no_proxy combines with overrides correctly
    let default_no_proxy = defaults::default_no_proxy(None);
    let overrides = vec!["test.com".to_string(), "example.org".to_string()];
    let mut combined = vec![default_no_proxy.to_string()];
    combined.extend(overrides.clone());
    let result = combined.join(",");

    assert!(result.contains("localhost"));
    assert!(result.contains("127.0.0.1"));
    assert!(result.contains("test.com"));
    assert!(result.contains("example.org"));
}
