use proxyctl_rs::hosts::{parse_host_line, parse_hosts, HostLineError};

#[test]
fn host_line_with_prefixed_proxy() {
    let e = parse_host_line("host1 proxy=p.example:1").unwrap();
    assert_eq!(e.pattern, "host1");
    assert_eq!(e.proxy, Some("p.example:1".to_string()));
}

#[test]
fn host_line_with_bare_proxy_and_comment() {
    let e = parse_host_line("host1 p.example:1 # note").unwrap();
    assert_eq!(e.proxy, Some("p.example:1".to_string()));
    let e = parse_host_line("host1 # p.example:1").unwrap();
    assert_eq!(e.proxy, None);
}

#[test]
fn host_line_errors() {
    assert!(matches!(parse_host_line("   "), Err(HostLineError::MissingPattern)));
    match parse_host_line("host1 p:1 q:2") {
        Err(HostLineError::UnexpectedToken(t)) => assert_eq!(t, "q:2"),
        other => panic!("unexpected {:?}", other),
    }
    match parse_host_line("h proxy=a.example:1 proxy=b.example:2") {
        Err(HostLineError::DuplicateProxy(t)) => assert_eq!(t, "proxy=b.example:2"),
        other => panic!("unexpected {:?}", other),
    }
    match parse_host_line("host1 p:1 proxy=q:2") {
        Err(HostLineError::DuplicateProxy(t)) => assert_eq!(t, "proxy=q:2"),
        other => panic!("unexpected {:?}", other),
    }
    match parse_host_line("host1 proxy=") {
        Err(HostLineError::EmptyProxy(p)) => assert_eq!(p, "host1"),
        other => panic!("unexpected {:?}", other),
    }
}

#[test]
fn registry_skips_blanks_and_comments() {
    let entries = parse_hosts("hosts.txt", "# list\n\n  a.example  \r\nb.example proxy=p:1\n").unwrap();
    assert_eq!(entries.len(), 2);
    assert_eq!(entries[0].pattern, "a.example");
    assert_eq!(entries[0].proxy, None);
    assert_eq!(entries[1].pattern, "b.example");
    assert_eq!(entries[1].proxy, Some("p:1".to_string()));
    assert!(parse_hosts("hosts.txt", "").unwrap().is_empty());
}

#[test]
fn registry_error_names_file_and_line() {
    let err = parse_hosts("/etc/hosts.txt", "# c\n\nh1\nh2 proxy=\n").unwrap_err();
    assert_eq!(err.line, 4);
    assert_eq!(err.path, "/etc/hosts.txt");
    assert!(matches!(err.error, HostLineError::EmptyProxy(_)));
    assert_eq!(
        err.message(),
        "Failed to parse hosts file /etc/hosts.txt:4: empty proxy value for host 'h2'"
    );
}
