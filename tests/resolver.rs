use proxyctl_rs::config::ProxySettings;
use proxyctl_rs::proxy::{
    close_gap, env_state_for, extract_proxy_host, gather_proxy_exports, get_env_value,
    host_port_from_authority, no_proxy_value, proxy_candidate, proxy_from_env,
    resolve_discovered, resolve_proxy, resolved_from_value, split_host_port, status_value,
    DiscoveryError, ResolutionError,
};

#[test]
fn url_with_scheme_and_port() {
    assert_eq!(extract_proxy_host("http://proxy.local:3128"), Some("proxy.local:3128".to_string()));
    let r = resolved_from_value("http://proxy.local:3128").unwrap();
    assert_eq!(r.proxy_host, "proxy.local:3128");
    assert_eq!(r.proxy_url, "http://proxy.local:3128");
}

#[test]
fn bare_host_takes_the_http_default_port() {
    assert_eq!(extract_proxy_host("proxy.local"), Some("proxy.local:80".to_string()));
    assert_eq!(extract_proxy_host("https://secure.example"), Some("secure.example:443".to_string()));
}

#[test]
fn bare_host_and_port() {
    assert_eq!(
        extract_proxy_host("  proxy.example.com:8080  "),
        Some("proxy.example.com:8080".to_string())
    );
}

#[test]
fn pac_token_is_read() {
    assert_eq!(
        extract_proxy_host("PROXY proxy.example.com:8080; DIRECT"),
        Some("proxy.example.com:8080".to_string())
    );
    assert_eq!(
        extract_proxy_host("SOCKS5 socks.example.com:1080"),
        Some("socks.example.com:1080".to_string())
    );
}

#[test]
fn bracketed_ipv6() {
    assert_eq!(extract_proxy_host("[::1]:8080"), Some("[::1]:8080".to_string()));
    assert_eq!(extract_proxy_host("[::1]: 8080"), Some("[::1]:8080".to_string()));
    assert_eq!(close_gap("[::1]:  8080"), "[::1]:8080");
    assert_eq!(close_gap("host: 1"), "host: 1");
}

#[test]
fn blank_and_unparseable_specifications() {
    assert_eq!(extract_proxy_host("   "), None);
    assert_eq!(extract_proxy_host(":"), None);
    match resolved_from_value(":") {
        Err(e) => {
            assert_eq!(e.message(), "unable to determine proxy host from ':'");
            match e {
                ResolutionError::Unparseable(v) => assert_eq!(v, ":"),
                other => panic!("unexpected {:?}", other),
            }
        }
        other => panic!("unexpected {:?}", other),
    }
}

#[test]
fn candidate_token_of_specifications() {
    assert_eq!(proxy_candidate("PROXY a.example:1;"), "a.example:1");
    assert_eq!(proxy_candidate("https \"b.example:2\" rest"), "b.example:2");
    assert_eq!(proxy_candidate("socks4 c.example:3/"), "c.example:3");
    assert_eq!(proxy_candidate("plain.example:4"), "plain.example:4");
}

#[test]
fn split_host_port_forms() {
    assert_eq!(
        split_host_port("localhost:3128"),
        Some(("localhost".to_string(), "3128".to_string()))
    );
    assert_eq!(split_host_port("[::1]:8080"), Some(("[::1]".to_string(), "8080".to_string())));
    assert_eq!(split_host_port("[::1]: 8080"), Some(("[::1]".to_string(), "8080".to_string())));
    assert_eq!(split_host_port("a:b:9"), Some(("a:b".to_string(), "9".to_string())));
    assert_eq!(split_host_port("host:"), None);
    assert_eq!(split_host_port("nocolon"), None);
}

#[test]
fn authority_is_written_as_host_and_decimal_port() {
    assert_eq!(host_port_from_authority(Some(("h".to_string(), 8080))), Some("h:8080".to_string()));
    assert_eq!(host_port_from_authority(Some(("h".to_string(), 0))), Some("h:0".to_string()));
    assert_eq!(host_port_from_authority(Some(("h".to_string(), 65535))), Some("h:65535".to_string()));
    assert_eq!(host_port_from_authority(None), None);
}

#[test]
fn explicit_value_wins() {
    let env = vec!["http://env.example:2".to_string()];
    let r = resolve_proxy(Some("http://p.example:1"), &env).unwrap().unwrap();
    assert_eq!(r.proxy_host, "p.example:1");
}

#[test]
fn environment_is_next() {
    let env = vec![":".to_string(), "http://env.example:2".to_string()];
    let r = resolve_proxy(None, &env).unwrap().unwrap();
    assert_eq!(r.proxy_host, "env.example:2");
    assert!(resolve_proxy(None, &vec![]).is_none());
    assert!(proxy_from_env(&vec![":".to_string()]).is_none());
}

#[test]
fn discovery_then_fallback() {
    let r = resolve_discovered(
        Ok(vec![":".to_string(), "PROXY a.example:3".to_string()]),
        None,
    )
    .unwrap();
    assert_eq!(r.proxy_host, "a.example:3");
    assert_eq!(r.proxy_url, "PROXY a.example:3");

    match resolve_discovered(Ok(vec![":".to_string()]), None) {
        Err(ResolutionError::Unparseable(v)) => assert_eq!(v, ":"),
        other => panic!("unexpected {:?}", other),
    }
    let r = resolve_discovered(Ok(vec![":".to_string()]), Some("http://d.example:4")).unwrap();
    assert_eq!(r.proxy_host, "d.example:4");

    let r = resolve_discovered(Err(DiscoveryError::Disabled), Some("http://d.example:4")).unwrap();
    assert_eq!(r.proxy_host, "d.example:4");
    assert!(matches!(
        resolve_discovered(Err(DiscoveryError::Disabled), None),
        Err(ResolutionError::Discovery(DiscoveryError::Disabled))
    ));
    assert!(matches!(
        resolve_discovered(Ok(vec![]), None),
        Err(ResolutionError::Discovery(DiscoveryError::NoCandidates))
    ));
}

#[test]
fn first_non_empty_environment_value() {
    assert_eq!(
        get_env_value(&vec![Some(String::new()), Some("x".to_string())]),
        Some("x".to_string())
    );
    assert_eq!(get_env_value(&vec![None, Some(String::new())]), None);
}

#[test]
fn export_lines_for_all_kinds() {
    let settings = ProxySettings::default();
    let e = gather_proxy_exports(&settings, "http://p:1", Some("localhost"));
    assert_eq!(e.len(), 12);
    assert_eq!(e[0], "export http_proxy=\"http://p:1\"");
    assert_eq!(e[1], "export HTTP_PROXY=\"http://p:1\"");
    assert_eq!(e[9], "export PROXY_RSYNC=\"http://p:1\"");
    assert_eq!(e[11], "export NO_PROXY=\"localhost\"");
}

#[test]
fn export_lines_follow_settings() {
    let mut settings = ProxySettings::default();
    settings.enable_http_proxy = false;
    settings.enable_ftp_proxy = false;
    let e = gather_proxy_exports(&settings, "u", Some(""));
    assert_eq!(
        e,
        vec![
            "export https_proxy=\"u\"".to_string(),
            "export HTTPS_PROXY=\"u\"".to_string(),
            "export all_proxy=\"u\"".to_string(),
            "export ALL_PROXY=\"u\"".to_string(),
            "export proxy_rsync=\"u\"".to_string(),
            "export PROXY_RSYNC=\"u\"".to_string(),
        ]
    );
}

#[test]
fn no_proxy_value_joins_configured_hosts() {
    let settings = ProxySettings::default();
    let custom = vec!["a.example".to_string(), "b.example".to_string()];
    assert_eq!(
        no_proxy_value(&settings, Some(&custom), "localhost"),
        Some("a.example,b.example".to_string())
    );
    assert_eq!(no_proxy_value(&settings, None, "localhost"), Some("localhost".to_string()));
    let mut off = ProxySettings::default();
    off.enable_no_proxy = false;
    assert_eq!(no_proxy_value(&off, None, "localhost"), None);
}

#[test]
fn recorded_state_follows_settings() {
    let mut settings = ProxySettings::default();
    settings.enable_ftp_proxy = false;
    let s = env_state_for(&settings, "http://p:1", Some("localhost"));
    assert_eq!(s.http_proxy, Some("http://p:1".to_string()));
    assert_eq!(s.ftp_proxy, None);
    assert_eq!(s.no_proxy, Some("localhost".to_string()));
}

#[test]
fn status_prefers_recorded_value() {
    assert_eq!(status_value(Some("a"), Some("b")), Some("a".to_string()));
    assert_eq!(status_value(None, Some("b")), Some("b".to_string()));
    assert_eq!(status_value(Some(""), Some("b")), None);
    assert_eq!(status_value(None, None), None);
}
