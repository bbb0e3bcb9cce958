use proxyctl_rs::db::get_db_path;
use proxyctl_rs::config::{
    clone_or_none, describe_config_options, get_default_proxy, get_hosts_file_path,
    get_proxy_settings, get_wpad_config, join_list, AppConfig,
};

#[test]
fn describes_every_setting() {
    let mut current = AppConfig::default();
    current.no_proxy = Some(vec!["a.example".to_string(), "b.example".to_string()]);
    current.enable_wpad_discovery = None;
    current.proxy_settings.enable_ftp_proxy = false;
    let o = describe_config_options(&current);
    assert_eq!(o.len(), 11);
    assert_eq!(o[0].key, "default_hosts_file");
    assert_eq!(o[0].default, "hosts");
    assert_eq!(o[1].key, "no_proxy");
    assert_eq!(o[1].default, "None");
    assert_eq!(o[1].current, "a.example, b.example");
    assert_eq!(o[3].current, "true");
    assert_eq!(o[4].default, "http://wpad.local/wpad.dat");
    assert_eq!(o[7].key, "proxy_settings.enable_ftp_proxy");
    assert_eq!(o[7].value_type, "bool");
    assert_eq!(o[7].current, "false");
}

#[test]
fn option_text_helpers() {
    assert_eq!(clone_or_none(None), "None");
    assert_eq!(clone_or_none(Some(&"x".to_string())), "x");
    assert_eq!(join_list(Some(&vec![])), "None");
    assert_eq!(join_list(Some(&vec!["a".to_string()])), "a");
}

#[test]
fn config_getters() {
    let mut c = AppConfig::default();
    c.default_proxy = Some("  http://p:1  ".to_string());
    assert_eq!(get_default_proxy(&c), Some("http://p:1".to_string()));
    c.default_proxy = Some("   ".to_string());
    assert_eq!(get_default_proxy(&c), None);
    assert_eq!(get_wpad_config(&c, "http://fallback/wpad.dat"), (true, "http://wpad.local/wpad.dat".to_string()));
    c.wpad_url = None;
    c.enable_wpad_discovery = Some(false);
    assert_eq!(get_wpad_config(&c, "http://fallback/wpad.dat"), (false, "http://fallback/wpad.dat".to_string()));
    assert_eq!(get_hosts_file_path("/cfg", &c), "/cfg/hosts");
    c.default_hosts_file = None;
    assert_eq!(get_hosts_file_path("/cfg/", &c), "/cfg/hosts.txt");
    assert!(get_proxy_settings(None).enable_no_proxy);
}

#[test]
fn state_store_location() {
    assert_eq!(get_db_path(Some("/data/proxyctl-rs")), "/data/proxyctl-rs/env_state.db");
    assert_eq!(get_db_path(None), "env_state.db");
}
