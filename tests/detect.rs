use proxyctl_rs::proxy::{candidates_from_response, detect_proxy_candidates_from_response, DiscoveryError};

#[test]
fn parses_proxies_from_variable_assignment() {
    let body = r#"
            var proxies = "PROXY proxy-us.example.com:8080; PROXY proxy-backup.example.com:8080; DIRECT";
            return proxies;
        "#;

    let proxies = detect_proxy_candidates_from_response(body);
    assert_eq!(proxies.len(), 2);
    assert_eq!(proxies[0], "proxy-us.example.com:8080");
    assert_eq!(proxies[1], "proxy-backup.example.com:8080");
}

#[test]
fn parses_proxies_from_return_statement() {
    let body = r#"
            function FindProxyForURL(url, host) {
                return "PROXY proxy-eu.example.net:3128; DIRECT";
            }
        "#;

    let proxies = detect_proxy_candidates_from_response(body);
    assert_eq!(proxies, vec!["proxy-eu.example.net:3128".to_string()]);
}

#[test]
fn ignores_direct_entries() {
    let body = r#"
            return "DIRECT";
        "#;

    let proxies = detect_proxy_candidates_from_response(body);
    assert!(proxies.is_empty());
}

#[test]
fn pac_candidate_list_excludes_direct() {
    let proxies = detect_proxy_candidates_from_response(
        "PROXY proxy-us.example.com:8080; PROXY proxy-backup.example.com:8080; DIRECT",
    );
    assert_eq!(
        proxies,
        vec![
            "proxy-us.example.com:8080".to_string(),
            "proxy-backup.example.com:8080".to_string()
        ]
    );
}

#[test]
fn pac_directives_of_every_kind_and_case() {
    let proxies = detect_proxy_candidates_from_response(
        "https a.example:443; socks5 b.example:1080/; SOCKS c.example:1081; http d.example:80",
    );
    assert_eq!(
        proxies,
        vec![
            "a.example:443".to_string(),
            "b.example:1080".to_string(),
            "c.example:1081".to_string(),
            "d.example:80".to_string()
        ]
    );
}

#[test]
fn clean_candidates_strips_separators() {
    let raw = vec![" p.example:1/ ".to_string(), "\"q.example:2\";".to_string()];
    let cleaned = proxyctl_rs::proxy::clean_candidates(&raw);
    assert_eq!(cleaned, vec!["p.example:1".to_string(), "q.example:2".to_string()]);
}

#[test]
fn candidates_from_response_reports_empty_document() {
    assert!(matches!(
        candidates_from_response("return \"DIRECT\";"),
        Err(DiscoveryError::NoCandidates)
    ));
    let found = candidates_from_response("PROXY a.example:1").unwrap();
    assert_eq!(found, vec!["a.example:1".to_string()]);
}
